use crate::record::{Bookmark, BookmarkRow};
use vstd::prelude::*;

verus! {

/// The decimal digit character for `d < 10`.
pub open spec fn digit_char(d: nat) -> char {
    if d == 0 {
        '0'
    } else if d == 1 {
        '1'
    } else if d == 2 {
        '2'
    } else if d == 3 {
        '3'
    } else if d == 4 {
        '4'
    } else if d == 5 {
        '5'
    } else if d == 6 {
        '6'
    } else if d == 7 {
        '7'
    } else if d == 8 {
        '8'
    } else {
        '9'
    }
}

/// The decimal digits of `n`, most significant first, with no leading zero.
pub open spec fn digits(n: nat) -> Seq<char>
    decreases n,
{
    if n < 10 {
        seq![digit_char(n)]
    } else {
        digits(n / 10).push(digit_char(n % 10))
    }
}

/// An id written in decimal, with a leading `-` when negative.
pub open spec fn id_text(id: i64) -> Seq<char> {
    if id < 0 {
        seq!['-'] + digits((-id) as nat)
    } else {
        digits(id as nat)
    }
}

/// The separator between the fields of a rendered line.
pub open spec fn separator() -> Seq<char> {
    seq![' ', '|', ' ']
}

/// The line that shows a bookmark: its id first, as a field of its own, then
/// its name and url.
pub open spec fn line_of(b: BookmarkRow) -> Seq<char> {
    id_text(b.0) + separator() + b.1 + separator() + b.2
}

fn digit_text(d: u64) -> (r: &'static str)
    requires
        d < 10,
    ensures
        r@ == seq![digit_char(d as nat)],
{
    proof {
        reveal_strlit("0");
        reveal_strlit("1");
        reveal_strlit("2");
        reveal_strlit("3");
        reveal_strlit("4");
        reveal_strlit("5");
        reveal_strlit("6");
        reveal_strlit("7");
        reveal_strlit("8");
        reveal_strlit("9");
    }
    let r = if d == 0 {
        "0"
    } else if d == 1 {
        "1"
    } else if d == 2 {
        "2"
    } else if d == 3 {
        "3"
    } else if d == 4 {
        "4"
    } else if d == 5 {
        "5"
    } else if d == 6 {
        "6"
    } else if d == 7 {
        "7"
    } else if d == 8 {
        "8"
    } else {
        "9"
    };
    assert(r@ =~= seq![digit_char(d as nat)]);
    r
}

fn append_digits(out: &mut String, n: u64)
    ensures
        final(out)@ == old(out)@ + digits(n as nat),
    decreases n,
{
    if n >= 10 {
        append_digits(out, n / 10);
    }
    out.append(digit_text(n % 10));
    assert(final(out)@ =~= old(out)@ + digits(n as nat));
}

fn append_id(out: &mut String, id: i64)
    ensures
        final(out)@ == old(out)@ + id_text(id),
{
    proof {
        reveal_strlit("-");
    }
    let m: u64 = if id < 0 {
        out.append("-");
        ((-(id + 1)) as u64) + 1
    } else {
        id as u64
    };
    append_digits(out, m);
    assert(final(out)@ =~= old(out)@ + id_text(id));
}

/// The line that shows `b` in the selector.
pub fn render_line(b: &Bookmark) -> (r: String)
    ensures
        r@ == line_of(b@),
{
    proof {
        reveal_strlit("-");
        reveal_strlit(" | ");
    }
    let mut out = String::new();
    append_id(&mut out, b.id);
    out.append(" | ");
    out.append(b.name.as_str());
    out.append(" | ");
    out.append(b.url.as_str());
    assert(out@ =~= line_of(b@));
    out
}

/// A decimal digit character.
pub open spec fn is_digit(c: char) -> bool {
    '0' <= c <= '9'
}

/// `line` starts with the id token of `id`: its decimal text and a space.
pub open spec fn tagged_with(line: Seq<char>, id: i64) -> bool {
    let t = id_text(id).push(' ');
    t.len() <= line.len() && line.subrange(0, t.len() as int) == t
}

/// The first candidate whose id token starts `line`.
pub open spec fn first_tagged(line: Seq<char>, cands: Seq<BookmarkRow>) -> Option<BookmarkRow>
    decreases cands.len(),
{
    if cands.len() == 0 {
        None
    } else if tagged_with(line, cands[0].0) {
        Some(cands[0])
    } else {
        first_tagged(line, cands.subrange(1, cands.len() as int))
    }
}

proof fn lemma_digits_shape(n: nat)
    ensures
        digits(n).len() >= 1,
        n >= 10 ==> digits(n).len() >= 2,
        forall|k: int| 0 <= k < digits(n).len() ==> is_digit(#[trigger] digits(n)[k]),
    decreases n,
{
    if n >= 10 {
        lemma_digits_shape(n / 10);
    }
}

proof fn lemma_digits_injective(n: nat, m: nat)
    requires
        digits(n) == digits(m),
    ensures
        n == m,
    decreases n,
{
    lemma_digits_shape(n);
    lemma_digits_shape(m);
    if n >= 10 && m >= 10 {
        let dn = digits(n / 10);
        let dm = digits(m / 10);
        assert(digits(n).drop_last() =~= dn);
        assert(digits(m).drop_last() =~= dm);
        assert(digits(n).last() == digit_char(n % 10));
        assert(digits(m).last() == digit_char(m % 10));
        assert(n % 10 == m % 10);
        lemma_digits_injective(n / 10, m / 10);
        assert(n == (n / 10) * 10 + n % 10);
        assert(m == (m / 10) * 10 + m % 10);
        assert(n == m);
    } else if n < 10 && m < 10 {
        assert(digits(n)[0] == digit_char(n));
        assert(digits(m)[0] == digit_char(m));
        assert(n == m);
    } else {
        assert(digits(n).len() == digits(m).len());
    }
}

proof fn lemma_id_text_shape(id: i64)
    ensures
        id_text(id).len() >= 1,
        forall|k: int| 0 <= k < id_text(id).len() ==> #[trigger] id_text(id)[k] != ' ',
        id < 0 ==> id_text(id)[0] == '-',
        id >= 0 ==> is_digit(id_text(id)[0]),
{
    if id < 0 {
        lemma_digits_shape((-id) as nat);
        assert forall|k: int| 0 <= k < id_text(id).len() implies #[trigger] id_text(id)[k] != ' ' by {
            if k > 0 {
                assert(id_text(id)[k] == digits((-id) as nat)[k - 1]);
            }
        }
    } else {
        lemma_digits_shape(id as nat);
    }
}

proof fn lemma_id_text_injective(a: i64, b: i64)
    requires
        id_text(a) == id_text(b),
    ensures
        a == b,
{
    lemma_id_text_shape(a);
    lemma_id_text_shape(b);
    if a < 0 && b < 0 {
        assert(id_text(a).subrange(1, id_text(a).len() as int) =~= digits((-a) as nat));
        assert(id_text(b).subrange(1, id_text(b).len() as int) =~= digits((-b) as nat));
        lemma_digits_injective((-a) as nat, (-b) as nat);
    } else if a >= 0 && b >= 0 {
        lemma_digits_injective(a as nat, b as nat);
    }
}

/// The rendered line of a bookmark carries the id token of that bookmark and
/// of no bookmark with another id.
pub proof fn lemma_line_tagged(b: BookmarkRow, id: i64)
    ensures
        tagged_with(line_of(b), id) <==> id == b.0,
{
    let line = line_of(b);
    let tb = id_text(b.0);
    let ta = id_text(id);
    lemma_id_text_shape(b.0);
    lemma_id_text_shape(id);
    assert(line[tb.len() as int] == ' ');
    assert forall|k: int| 0 <= k < tb.len() implies line[k] == tb[k] by {}
    if id == b.0 {
        assert(line.subrange(0, ta.len() as int + 1) =~= ta.push(' '));
    }
    if tagged_with(line, id) {
        let t = ta.push(' ');
        assert(line[ta.len() as int] == t[ta.len() as int]);
        if ta.len() < tb.len() {
            assert(line[ta.len() as int] == tb[ta.len() as int]);
        } else if ta.len() > tb.len() {
            assert(line[tb.len() as int] == t[tb.len() as int]);
        }
        assert(ta =~= tb) by {
            assert forall|k: int| 0 <= k < ta.len() implies ta[k] == tb[k] by {
                assert(line[k] == t[k]);
            }
        }
        lemma_id_text_injective(id, b.0);
    }
}

/// Among candidates with distinct ids, the line rendered for one of them
/// resolves to that candidate and never to another, whatever their names,
/// urls and descriptions.
pub proof fn lemma_line_identifies(cands: Seq<BookmarkRow>, j: int)
    requires
        forall|a: int, b: int| 0 <= a < b < cands.len() ==> cands[a].0 != cands[b].0,
        0 <= j < cands.len(),
    ensures
        first_tagged(line_of(cands[j]), cands) == Some(cands[j]),
    decreases cands.len(),
{
    lemma_line_tagged(cands[j], cands[0].0);
    if j > 0 {
        let rest = cands.subrange(1, cands.len() as int);
        assert(rest[j - 1] == cands[j]);
        lemma_line_identifies(rest, j - 1);
    } else {
        lemma_line_tagged(cands[j], cands[j].0);
    }
}

/// Whether `line` starts with `prefix`.
fn starts_with(line: &str, prefix: &str) -> (r: bool)
    ensures
        r == (prefix@.len() <= line@.len() && line@.subrange(0, prefix@.len() as int) == prefix@),
{
    let n = prefix.unicode_len();
    if n > line.unicode_len() {
        return false;
    }
    let mut i: usize = 0;
    while i < n
        invariant
            n == prefix@.len(),
            n <= line@.len(),
            i <= n,
            forall|k: int| 0 <= k < i ==> line@[k] == prefix@[k],
        decreases n - i,
    {
        if line.get_char(i) != prefix.get_char(i) {
            assert(line@.subrange(0, n as int)[i as int] != prefix@[i as int]);
            return false;
        }
        i = i + 1;
    }
    assert(line@.subrange(0, n as int) =~= prefix@);
    true
}

/// The candidate that a chosen line stands for: the first one whose id token
/// (its id and a space) starts the line.
pub fn resolve_selection(line: &str, candidates: &Vec<Bookmark>) -> (r: Option<Bookmark>)
    ensures
        r is Some <==> first_tagged(line@, candidates@.map_values(|b: Bookmark| b@)) is Some,
        r is Some ==> first_tagged(line@, candidates@.map_values(|b: Bookmark| b@)) == Some(r->0@),
{
    proof {
        reveal_strlit(" ");
    }
    let ghost cs = candidates@.map_values(|b: Bookmark| b@);
    let mut i: usize = 0;
    assert(cs.subrange(0, cs.len() as int) =~= cs);
    while i < candidates.len()
        invariant
            i <= candidates@.len(),
            cs == candidates@.map_values(|b: Bookmark| b@),
            first_tagged(line@, cs) == first_tagged(line@, cs.subrange(i as int, cs.len() as int)),
        decreases candidates@.len() - i,
    {
        proof {
            reveal_strlit(" ");
        }
        let mut token = String::new();
        append_id(&mut token, candidates[i].id);
        token.append(" ");
        let ghost rest = cs.subrange(i as int, cs.len() as int);
        assert(rest[0] == cs[i as int]);
        assert(token@ =~= id_text(candidates@[i as int].id).push(' '));
        if starts_with(line, token.as_str()) {
            return Some(candidates[i].duplicate());
        }
        assert(rest.subrange(1, rest.len() as int) =~= cs.subrange(i + 1, cs.len() as int));
        i = i + 1;
    }
    None
}

} // verus!
