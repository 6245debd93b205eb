use crate::grid::{array_cells, array_shape, nonzero_product, ByteArray2};
use vstd::std_specs::iter::IteratorSpec;
use vstd::prelude::*;

verus! {

broadcast use {vstd::string::axiom_spec_iter, vstd::string::next_postcondition};

/// A line without the carriage return that ends it, if any.
pub open spec fn strip_cr(line: Seq<char>) -> Seq<char> {
    if line.len() > 0 && line.last() == '\r' {
        line.drop_last()
    } else {
        line
    }
}

/// The lines of `rest`, given that `cur` holds the characters of the current
/// line read so far: lines end at `\n`, and a `\r` just before it is
/// dropped; a last line needs no `\n`, and no line follows a final `\n`.
pub open spec fn lines_from(rest: Seq<char>, cur: Seq<char>) -> Seq<Seq<char>>
    decreases rest.len(),
{
    if rest.len() == 0 {
        if cur.len() == 0 {
            seq![]
        } else {
            seq![cur]
        }
    } else if rest[0] == '\n' {
        seq![strip_cr(cur)] + lines_from(rest.drop_first(), seq![])
    } else {
        lines_from(rest.drop_first(), cur.push(rest[0]))
    }
}

/// The lines of a text, as `str::lines` splits them.
pub open spec fn text_lines(text: Seq<char>) -> Seq<Seq<char>> {
    lines_from(text, seq![])
}

/// The number of bytes that encode a character in UTF-8.
pub open spec fn char_width(c: char) -> nat {
    if (c as u32) < 0x80 {
        1
    } else if (c as u32) < 0x800 {
        2
    } else if (c as u32) < 0x1_0000 {
        3
    } else {
        4
    }
}

/// The number of bytes that encode a sequence of characters in UTF-8.
pub open spec fn utf8_len(s: Seq<char>) -> nat
    decreases s.len(),
{
    if s.len() == 0 {
        0
    } else {
        utf8_len(s.drop_last()) + char_width(s.last())
    }
}

/// All lines one after the other.
pub open spec fn concat_lines(ls: Seq<Seq<char>>) -> Seq<char>
    decreases ls.len(),
{
    if ls.len() == 0 {
        seq![]
    } else {
        concat_lines(ls.drop_last()) + ls.last()
    }
}

/// The cell value a character stands for: its low byte minus the byte of
/// `'0'`, so `'0'` is 0 and `'1'` is 1.
pub open spec fn cell_of(c: char) -> u8 {
    ((c as u32) as u8 - 48) as u8
}

/// The characters that stand for a cell value: low byte at least that of
/// `'0'`.
pub open spec fn is_cell_char(c: char) -> bool {
    (c as u32) as u8 >= 48
}

/// Height of the grid in a text: its number of lines.
pub open spec fn text_height(text: Seq<char>) -> int {
    text_lines(text).len() as int
}

/// Width of the grid in a text: the byte length of its last line.
pub open spec fn text_width(text: Seq<char>) -> int {
    let ls = text_lines(text);
    if ls.len() == 0 {
        0
    } else {
        utf8_len(ls.last()) as int
    }
}

/// A text describes a grid: every character of its lines stands for a cell
/// value, and the lines hold height times width characters in all.
pub open spec fn is_grid_text(text: Seq<char>) -> bool {
    let all = concat_lines(text_lines(text));
    &&& forall|i: int| 0 <= i < all.len() ==> is_cell_char(#[trigger] all[i])
    &&& text_height(text) * text_width(text) == all.len()
}

/// The byte length of two character sequences one after the other.
pub proof fn lemma_utf8_len_concat(a: Seq<char>, b: Seq<char>)
    ensures
        utf8_len(a + b) == utf8_len(a) + utf8_len(b),
    decreases b.len(),
{
    if b.len() > 0 {
        assert((a + b).drop_last() =~= a + b.drop_last());
        lemma_utf8_len_concat(a, b.drop_last());
    } else {
        assert(a + b =~= a);
    }
}

/// The byte length of a line in which a carriage return was dropped.
proof fn lemma_utf8_len_strip(line: Seq<char>)
    ensures
        utf8_len(strip_cr(line)) <= utf8_len(line),
{
}

/// Byte length of a line, counted character by character.
fn line_width(line: &Vec<char>) -> (w: usize)
    requires
        utf8_len(line@) <= usize::MAX,
    ensures
        w == utf8_len(line@),
{
    let mut w: usize = 0;
    let mut i: usize = 0;
    while i < line.len()
        invariant
            i <= line@.len(),
            w == utf8_len(line@.take(i as int)),
            utf8_len(line@) <= usize::MAX,
        decreases line@.len() - i,
    {
        let c = line[i];
        proof {
            assert(line@.take(i + 1).drop_last() =~= line@.take(i as int));
            lemma_utf8_len_concat(line@.take(i + 1), line@.skip(i + 1));
            assert(line@.take(i + 1) + line@.skip(i + 1) =~= line@);
        }
        let cw: usize = if (c as u32) < 0x80 {
            1
        } else if (c as u32) < 0x800 {
            2
        } else if (c as u32) < 0x1_0000 {
            3
        } else {
            4
        };
        w = w + cw;
        i = i + 1;
    }
    assert(line@.take(i as int) =~= line@);
    w
}

/// A character sequence is at most as long as its byte length.
proof fn lemma_utf8_len_ge(s: Seq<char>)
    ensures
        s.len() <= utf8_len(s),
    decreases s.len(),
{
    if s.len() > 0 {
        lemma_utf8_len_ge(s.drop_last());
    }
}

/// Appends the cell values of a line's characters; returns whether every
/// character stands for a cell value (when not, what was appended is of no
/// use).
fn push_line(line: &Vec<char>, cells: &mut Vec<u8>) -> (ok: bool)
    ensures
        ok == (forall|i: int| 0 <= i < line@.len() ==> is_cell_char(#[trigger] line@[i])),
        ok ==> final(cells)@ == old(cells)@ + line@.map_values(|c: char| cell_of(c)),
{
    let ghost v0 = cells@;
    let mut ok = true;
    let mut i: usize = 0;
    while i < line.len()
        invariant
            i <= line@.len(),
            ok == (forall|j: int| 0 <= j < i ==> is_cell_char(#[trigger] line@[j])),
            ok ==> cells@ == v0 + line@.take(i as int).map_values(|c: char| cell_of(c)),
        decreases line@.len() - i,
    {
        let b = #[verifier::truncate] ((line[i] as u32) as u8);
        if b >= 48 {
            cells.push(b - 48);
        } else {
            ok = false;
        }
        proof {
            assert(line@.take(i + 1) =~= line@.take(i as int).push(line@[i as int]));
            assert(line@.take(i + 1).map_values(|c: char| cell_of(c)) =~= line@.take(
                i as int,
            ).map_values(|c: char| cell_of(c)).push(cell_of(line@[i as int])));
        }
        i = i + 1;
    }
    assert(line@.take(i as int) =~= line@);
    ok
}

/// The cells of one more line follow the cells of the lines before it.
proof fn lemma_concat_push(done: Seq<Seq<char>>, line: Seq<char>)
    ensures
        concat_lines(done.push(line)) == concat_lines(done) + line,
        concat_lines(done.push(line)).map_values(|c: char| cell_of(c)) == concat_lines(
            done,
        ).map_values(|c: char| cell_of(c)) + line.map_values(|c: char| cell_of(c)),
        (forall|i: int|
            0 <= i < concat_lines(done.push(line)).len() ==> is_cell_char(
                #[trigger] concat_lines(done.push(line))[i],
            )) == ((forall|i: int|
            0 <= i < concat_lines(done).len() ==> is_cell_char(#[trigger] concat_lines(done)[i]))
            && (forall|i: int| 0 <= i < line.len() ==> is_cell_char(#[trigger] line[i]))),
{
    assert(done.push(line).drop_last() =~= done);
    let all = concat_lines(done.push(line));
    let front = concat_lines(done);
    assert(all =~= front + line);
    assert(all.map_values(|c: char| cell_of(c)) =~= front.map_values(|c: char| cell_of(c))
        + line.map_values(|c: char| cell_of(c)));
    if forall|i: int| 0 <= i < all.len() ==> is_cell_char(#[trigger] all[i]) {
        assert forall|i: int| 0 <= i < front.len() implies is_cell_char(#[trigger] front[i]) by {
            assert(all[i] == front[i]);
        }
        assert forall|i: int| 0 <= i < line.len() implies is_cell_char(#[trigger] line[i]) by {
            assert(all[front.len() + i] == line[i]);
        }
    }
    if (forall|i: int| 0 <= i < front.len() ==> is_cell_char(#[trigger] front[i])) && (forall|
        i: int,
    | 0 <= i < line.len() ==> is_cell_char(#[trigger] line[i])) {
        assert forall|i: int| 0 <= i < all.len() implies is_cell_char(#[trigger] all[i]) by {
            if i < front.len() {
                assert(all[i] == front[i]);
            } else {
                assert(all[i] == line[i - front.len()]);
            }
        }
    }
}

/// Reads a grid from its text: one line per row, one character per cell,
/// each character standing for its low byte minus that of `'0'`. The grid
/// is as tall as the text has lines and as wide as the byte length of its
/// last line. `None` when a character stands for no cell value or the
/// lines do not fill that shape.
pub fn grid_from_text(data: &str) -> (r: Option<(ByteArray2, u32, u32)>)
    requires
        utf8_len(data@) <= isize::MAX,
    ensures
        r is Some <==> is_grid_text(data@),
        r matches Some(g) ==> {
            &&& array_shape(g.0) == (text_height(data@) as usize, text_width(data@) as usize)
            &&& array_cells(g.0) == concat_lines(text_lines(data@)).map_values(|c: char| cell_of(c))
            &&& g.1 == text_height(data@) as u32
            &&& g.2 == text_width(data@) as u32
        },
{
    let mut height: usize = 0;
    let mut width: usize = 0;
    let mut my_vec: Vec<u8> = Vec::new();
    let mut all_cells = true;
    let mut cur: Vec<char> = Vec::new();
    let ghost mut done: Seq<Seq<char>> = seq![];
    let mut it = data.chars();
    proof {
        lemma_utf8_len_ge(data@);
        assert(lines_from(data@, seq![]) == text_lines(data@));
        assert(done + lines_from(it.remaining(), cur@) =~= lines_from(it.remaining(), cur@));
    }
    loop
        invariant
            it.decrease() is Some,
            text_lines(data@) == done + lines_from(it.remaining(), cur@),
            utf8_len(cur@) + utf8_len(it.remaining()) <= utf8_len(data@),
            utf8_len(data@) <= isize::MAX,
            data@.len() <= utf8_len(data@),
            cur@.len() + it.remaining().len() + done.len() <= data@.len(),
            concat_lines(done).len() + cur@.len() + it.remaining().len() <= data@.len(),
            width <= utf8_len(data@),
            height == done.len(),
            width == (if done.len() == 0 {
                0
            } else {
                utf8_len(done.last())
            }),
            all_cells == (forall|i: int|
                0 <= i < concat_lines(done).len() ==> is_cell_char(#[trigger] concat_lines(done)[i])),
            all_cells ==> my_vec@ == concat_lines(done).map_values(|c: char| cell_of(c)),
        ensures
            it.remaining().len() == 0,
        decreases it.decrease()->0,
    {
        let ghost before = it.remaining();
        match it.next() {
            None => {
                break ;
            },
            Some(c) => {
                proof {
                    assert(before =~= seq![c] + it.remaining());
                    lemma_utf8_len_concat(seq![c], it.remaining());
                    assert(seq![c].drop_last() =~= Seq::<char>::empty());
                }
                if c == '\n' {
                    let ghost line0 = cur@;
                    if cur.len() > 0 && cur[cur.len() - 1] == '\r' {
                        cur.pop();
                    }
                    proof {
                        assert(cur@ == strip_cr(line0));
                        lemma_utf8_len_strip(line0);
                        lemma_concat_push(done, cur@);
                    }
                    width = line_width(&cur);
                    height = height + 1;
                    let line_ok = push_line(&cur, &mut my_vec);
                    all_cells = all_cells && line_ok;
                    proof {
                        assert(done.push(cur@) + lines_from(it.remaining(), seq![]) =~= done + (
                        seq![cur@] + lines_from(it.remaining(), seq![])));
                        done = done.push(cur@);
                    }
                    cur = Vec::new();
                } else {
                    proof {
                        assert(cur@.push(c).drop_last() =~= cur@);
                    }
                    cur.push(c);
                }
            },
        }
    }
    assert(it.remaining() =~= Seq::<char>::empty());
    if cur.len() > 0 {
        proof {
            lemma_concat_push(done, cur@);
        }
        width = line_width(&cur);
        height = height + 1;
        let line_ok = push_line(&cur, &mut my_vec);
        all_cells = all_cells && line_ok;
        proof {
            assert(done.push(cur@) =~= done + seq![cur@]);
            done = done.push(cur@);
        }
    } else {
        proof {
            assert(done + Seq::<Seq<char>>::empty() =~= done);
        }
    }
    assert(done == text_lines(data@));
    if !all_cells {
        return None;
    }
    proof {
        assert(my_vec@.len() == concat_lines(done).len());
        if height > 0 && width > 0 {
            assert(nonzero_product((height, width)) == height * width);
        }
    }
    match ByteArray2::from_shape_vec((height, width), my_vec) {
        Some(a) => Some((a, #[verifier::truncate] (height as u32), #[verifier::truncate] (width as u32))),
        None => None,
    }
}

} // verus!
