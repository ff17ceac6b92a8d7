use omnischedule::timeline::{lay_out_blocks, Block};

fn block(start: usize, width: usize, title: &str) -> Block {
    Block { start, width, title: title.chars().collect() }
}

fn line(width: usize, blocks: &[Block]) -> String {
    lay_out_blocks(width, blocks).into_iter().collect()
}

#[test]
fn blocks_cut_titles_between_bars() {
    let blocks = [block(0, 5, "0. Alpha"), block(5, 4, "1. B")];
    assert_eq!(line(10, &blocks), "|0. ||1.| ");
}

#[test]
fn short_titles_are_padded_with_spaces() {
    assert_eq!(line(8, &[block(1, 7, "2. C")]), " |2. C |");
}

#[test]
fn later_blocks_are_drawn_over_earlier_ones() {
    let blocks = [block(0, 6, "abc"), block(2, 3, "x")];
    assert_eq!(line(7, &blocks), "|a|x|| ");
}

#[test]
fn empty_and_narrow_blocks() {
    assert_eq!(line(3, &[]), "   ");
    assert_eq!(line(3, &[block(9, 0, "skipped")]), "   ");
    assert_eq!(line(3, &[block(1, 2, "title")]), " ||");
    assert_eq!(line(0, &[]), "");
}
