use vstd::prelude::*;

verus! {

/// Where a queue entry is drawn on a timeline line: its first column, how many columns it
/// covers and the title written inside it.
pub struct Block {
    pub start: usize,
    pub width: usize,
    pub title: Vec<char>,
}

/// A block as plain values.
pub struct BlockView {
    pub start: nat,
    pub width: nat,
    pub title: Seq<char>,
}

impl View for Block {
    type V = BlockView;

    open spec fn view(&self) -> BlockView {
        BlockView { start: self.start as nat, width: self.width as nat, title: self.title@ }
    }
}

/// `n` spaces.
pub open spec fn spaces(n: nat) -> Seq<char> {
    Seq::new(n, |i: int| ' ')
}

/// The text of a block `width` columns wide (at least two): a bar, the title cut or padded with
/// spaces to the columns between the bars, and a bar.
pub open spec fn block_text(title: Seq<char>, width: nat) -> Seq<char> {
    let inner = (width - 2) as nat;
    let shown = if title.len() >= inner {
        title.take(inner as int)
    } else {
        title + spaces((inner - title.len()) as nat)
    };
    seq!['|'] + shown + seq!['|']
}

/// The line with the block drawn over it; a block of no columns leaves the line as it is.
pub open spec fn place_block(line: Seq<char>, b: BlockView) -> Seq<char> {
    if b.width == 0 {
        line
    } else {
        line.take(b.start as int) + block_text(b.title, b.width) + line.skip((b.start + b.width) as int)
    }
}

/// A line `width` columns wide with the blocks drawn over it in order, a later block over an
/// earlier one.
pub open spec fn timeline_line(width: nat, blocks: Seq<BlockView>) -> Seq<char>
    decreases blocks.len(),
{
    if blocks.len() == 0 {
        spaces(width)
    } else {
        place_block(timeline_line(width, blocks.drop_last()), blocks.last())
    }
}

/// The text of one block: a bar, the title cut or padded to `width - 2` columns, and a bar.
fn block_chars(title: &Vec<char>, width: usize) -> (r: Vec<char>)
    requires
        width >= 2,
    ensures
        r@ == block_text(title@, width as nat),
{
    let inner: usize = width - 2;
    let mut r: Vec<char> = Vec::with_capacity(width);
    r.push('|');
    let mut k: usize = 0;
    while k < inner
        invariant
            inner == width - 2,
            k <= inner,
            r@.len() == k + 1,
            r@[0] == '|',
            forall|j: int| 0 <= j < k ==> #[trigger] r@[j + 1] == (if j < title@.len() { title@[j] } else { ' ' }),
        decreases inner - k,
    {
        if k < title.len() {
            r.push(title[k]);
        } else {
            r.push(' ');
        }
        k = k + 1;
    }
    let ghost mid = r@;
    r.push('|');
    proof {
        let shown = if title@.len() >= inner {
            title@.take(inner as int)
        } else {
            title@ + spaces((inner - title@.len()) as nat)
        };
        let want = seq!['|'] + shown + seq!['|'];
        assert(shown.len() == inner);
        assert(want.len() == r@.len());
        assert forall|j: int| 0 <= j < r@.len() implies #[trigger] r@[j] == want[j] by {
            if j == 0 {
                assert(r@[0] == mid[0]);
            } else if j < inner + 1 {
                let m = j - 1;
                assert(r@[m + 1] == mid[m + 1]);
                assert(mid[m + 1] == (if m < title@.len() { title@[m] } else { ' ' }));
                assert(want[j] == shown[m]);
            } else {
                assert(r@[j] == '|');
            }
        }
        assert(r@ =~= want);
    }
    r
}

/// Draw the blocks, in order, on a line of `width` spaces. A block one column wide has no
/// room for its two bars and is not accepted.
pub fn lay_out_blocks(width: usize, blocks: &[Block]) -> (r: Vec<char>)
    requires
        forall|k: int| 0 <= k < blocks@.len() ==> (#[trigger] blocks@[k]).width != 1,
        forall|k: int|
            0 <= k < blocks@.len() && (#[trigger] blocks@[k]).width > 0 ==> blocks@[k].start + blocks@[k].width <= width,
    ensures
        r@ == timeline_line(width as nat, blocks@.map_values(|b: Block| b@)),
{
    let ghost views = blocks@.map_values(|b: Block| b@);
    let mut line: Vec<char> = Vec::with_capacity(width);
    let mut c: usize = 0;
    while c < width
        invariant
            c <= width,
            line@.len() == c,
            forall|j: int| 0 <= j < c ==> #[trigger] line@[j] == ' ',
        decreases width - c,
    {
        line.push(' ');
        c = c + 1;
    }
    proof {
        assert(line@ =~= spaces(width as nat));
        assert(views.take(0) =~= Seq::<BlockView>::empty());
    }
    let mut i: usize = 0;
    while i < blocks.len()
        invariant
            i <= blocks@.len(),
            views == blocks@.map_values(|b: Block| b@),
            forall|k: int| 0 <= k < blocks@.len() ==> (#[trigger] blocks@[k]).width != 1,
            forall|k: int|
                0 <= k < blocks@.len() && (#[trigger] blocks@[k]).width > 0 ==> blocks@[k].start + blocks@[k].width
                    <= width,
            line@ == timeline_line(width as nat, views.take(i as int)),
            line@.len() == width,
        decreases blocks@.len() - i,
    {
        let b = &blocks[i];
        let ghost before = line@;
        proof {
            assert(views.take(i as int + 1).drop_last() =~= views.take(i as int));
            assert(views.take(i as int + 1).last() == b@);
        }
        if b.width != 0 {
            let text = block_chars(&b.title, b.width);
            let mut k: usize = 0;
            while k < b.width
                invariant
                    b.start + b.width <= width,
                    b.width >= 2,
                    text@.len() == b.width,
                    k <= b.width,
                    line@.len() == width,
                    before.len() == width,
                    forall|j: int| 0 <= j < width && !(b.start <= j < b.start + k) ==> #[trigger] line@[j] == before[j],
                    forall|j: int| b.start <= j < b.start + k ==> #[trigger] line@[j] == text@[j - b.start],
                decreases b.width - k,
            {
                line.set(b.start + k, text[k]);
                k = k + 1;
            }
            proof {
                assert(line@ =~= place_block(before, b@));
            }
        }
        i = i + 1;
    }
    proof {
        assert(views.take(blocks@.len() as int) =~= views);
    }
    line
}

} // verus!
