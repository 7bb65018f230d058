use crate::rank::{
    fuzzy_score, is_ascii_text, is_ranking, lemma_ranking_exists, lemma_ranking_unique, order_by_score,
    score_line, subsequence_ignoring_case,
};
use crate::record::{rows_of, Bookmark, BookmarkRow};
use crate::render::{line_of, render_line};
use vstd::prelude::*;

verus! {

/// Appends `c` to `s`.
///
/// Relies on `String::push`, which adds one character at the end.
#[verifier::external_body]
fn push_char(s: &mut String, c: char)
    ensures
        final(s)@ == old(s)@.push(c),
{
    s.push(c)
}

/// Removes the last character of `s` and returns it, or `None` when `s` is empty.
///
/// Relies on `String::pop`.
#[verifier::external_body]
fn pop_char(s: &mut String) -> (r: Option<char>)
    ensures
        old(s)@.len() == 0 ==> r is None && final(s)@ == old(s)@,
        old(s)@.len() > 0 ==> r == Some(old(s)@.last()) && final(s)@ == old(s)@.drop_last(),
{
    s.pop()
}

/// One input to the selector.
#[derive(Debug, Clone, Copy, PartialEq, Eq)]
pub enum Key {
    /// A character typed at the end of the query.
    Type(char),
    /// The last character of the query erased.
    Erase,
    /// The highlight moved one line up.
    Up,
    /// The highlight moved one line down.
    Down,
    /// The highlighted line chosen.
    Confirm,
    /// The selection given up.
    Cancel,
}

/// What the selector does after an input.
#[derive(Debug, Clone, PartialEq, Eq)]
pub enum Outcome {
    /// It waits for more input.
    Pending,
    /// It is over: the chosen bookmark, or `None` when nothing was chosen.
    Done(Option<Bookmark>),
}

/// The scores of the candidates' lines for query `q`.
pub open spec fn scores_for(cands: Seq<BookmarkRow>, q: Seq<char>) -> Seq<Option<i64>> {
    Seq::new(cands.len(), |i: int| fuzzy_score(line_of(cands[i]), q))
}

/// The displayed list for query `q`: the ranking of the candidates' scores.
pub open spec fn ranking_of(cands: Seq<BookmarkRow>, q: Seq<char>) -> Seq<usize> {
    choose|r: Seq<usize>| #[trigger] is_ranking(scores_for(cands, q), r)
}

/// The query after `key`.
pub open spec fn key_query(q: Seq<char>, key: Key) -> Seq<char> {
    match key {
        Key::Type(c) => q.push(c),
        Key::Erase => if q.len() > 0 {
            q.drop_last()
        } else {
            q
        },
        _ => q,
    }
}

/// What a selector over `cands` with query `q` and highlight `cur` ends with
/// after `keys`: `Some(choice)` once a key ends it, `None` while it still waits.
pub open spec fn run_keys(cands: Seq<BookmarkRow>, q: Seq<char>, cur: nat, keys: Seq<Key>) -> Option<
    Option<BookmarkRow>,
>
    decreases keys.len(),
{
    if keys.len() == 0 {
        None
    } else {
        let rest = keys.subrange(1, keys.len() as int);
        let shown = ranking_of(cands, q);
        match keys[0] {
            Key::Type(_) => run_keys(cands, key_query(q, keys[0]), 0, rest),
            Key::Erase => run_keys(cands, key_query(q, keys[0]), 0, rest),
            Key::Up => run_keys(cands, q, if cur > 0 {
                (cur - 1) as nat
            } else {
                cur
            }, rest),
            Key::Down => run_keys(cands, q, if cur + 1 < shown.len() {
                cur + 1
            } else {
                cur
            }, rest),
            Key::Confirm => if shown.len() == 0 {
                Some(None)
            } else {
                Some(Some(cands[shown[cur as int] as int]))
            },
            Key::Cancel => Some(None),
        }
    }
}

/// An interactive fuzzy selector over a fixed list of bookmarks.
pub struct Selector {
    candidates: Vec<Bookmark>,
    lines: Vec<String>,
    query: String,
    scores: Vec<Option<i64>>,
    ranked: Vec<usize>,
    cursor: usize,
}

impl Selector {
    /// The bookmarks to choose from, in their given order.
    pub closed spec fn candidates(&self) -> Seq<BookmarkRow> {
        rows_of(self.candidates@)
    }

    /// The query typed so far.
    pub closed spec fn query(&self) -> Seq<char> {
        self.query@
    }

    /// The displayed list: positions among the candidates, top line first.
    pub closed spec fn ranked(&self) -> Seq<usize> {
        self.ranked@
    }

    /// The highlighted line of the displayed list.
    pub closed spec fn cursor(&self) -> nat {
        self.cursor as nat
    }

    /// The internal invariant: lines, scores and the displayed list follow
    /// from the candidates and the query.
    pub closed spec fn wf(&self) -> bool {
        &&& self.lines@.len() == self.candidates@.len()
        &&& forall|i: int|
            0 <= i < self.lines@.len() ==> (#[trigger] self.lines@[i])@ == line_of(self.candidates@[i]@)
        &&& self.scores@ == scores_for(self.candidates(), self.query@)
        &&& is_ranking(self.scores@, self.ranked@)
        &&& self.ranked@.len() == 0 ==> self.cursor == 0
        &&& self.ranked@.len() > 0 ==> self.cursor < self.ranked@.len()
        &&& self.filters_by_subsequence()
    }

    /// For ASCII text, a candidate is displayed exactly when the query's
    /// characters occur in order in its line, letter case ignored.
    pub open spec fn filters_by_subsequence(&self) -> bool {
        forall|i: int|
            0 <= i < self.candidates().len() && is_ascii_text(line_of(self.candidates()[i]))
                && is_ascii_text(self.query()) ==> (#[trigger] self.displays(i)
                <==> subsequence_ignoring_case(self.query(), line_of(self.candidates()[i])))
    }

    /// The displayed list is the ranking of the candidates for the current
    /// query, and the highlight stands on it (or at 0 when it is empty).
    pub open spec fn shows_ranking(&self) -> bool {
        &&& is_ranking(scores_for(self.candidates(), self.query()), self.ranked())
        &&& self.ranked().len() == 0 ==> self.cursor() == 0
        &&& self.ranked().len() > 0 ==> self.cursor() < self.ranked().len()
    }

    /// Candidate `i` is on the displayed list.
    pub open spec fn displays(&self, i: int) -> bool {
        exists|k: int| 0 <= k < self.ranked().len() && self.ranked()[k] == i
    }

    proof fn lemma_wf_shows(&self)
        requires
            self.wf(),
        ensures
            self.shows_ranking(),
            self.filters_by_subsequence(),
            self.ranked() == ranking_of(self.candidates(), self.query()),
    {
        lemma_ranking_unique(scores_for(self.candidates(), self.query()), self.ranked(), ranking_of(self.candidates(), self.query()));
    }

    /// Scores every line for the current query, ranks them and puts the
    /// highlight on the top line.
    ///
    /// Every call rescans and rescores all candidates and ranks them anew
    /// (quadratic in the number of matches): fine for hundreds to a few
    /// thousand bookmarks, a scalability limit beyond that.
    fn refresh(&mut self)
        requires
            old(self).lines@.len() == old(self).candidates@.len(),
            forall|i: int|
                0 <= i < old(self).lines@.len() ==> (#[trigger] old(self).lines@[i])@ == line_of(
                    old(self).candidates@[i]@,
                ),
        ensures
            final(self).wf(),
            final(self).candidates() == old(self).candidates(),
            final(self).query() == old(self).query(),
            final(self).cursor() == 0,
            old(self).query().len() == 0 ==> forall|i: int|
                0 <= i < final(self).candidates().len() ==> #[trigger] final(self).displays(i),
    {
        let mut scores: Vec<Option<i64>> = Vec::new();
        let mut i: usize = 0;
        while i < self.lines.len()
            invariant
                i <= self.lines@.len(),
                self.lines@.len() == self.candidates@.len(),
                forall|j: int|
                    0 <= j < self.lines@.len() ==> (#[trigger] self.lines@[j])@ == line_of(self.candidates@[j]@),
                scores@.len() == i,
                forall|j: int|
                    0 <= j < i ==> #[trigger] scores@[j] == fuzzy_score(line_of(self.candidates@[j]@), self.query@),
                self.query@.len() == 0 ==> forall|j: int| 0 <= j < i ==> #[trigger] scores@[j] == Some(0i64),
                forall|j: int|
                    0 <= j < i && is_ascii_text(line_of(self.candidates@[j]@)) && is_ascii_text(self.query@)
                        ==> (#[trigger] scores@[j] is Some <==> subsequence_ignoring_case(
                        self.query@,
                        line_of(self.candidates@[j]@),
                    )),
            decreases self.lines@.len() - i,
        {
            let s = score_line(self.lines[i].as_str(), self.query.as_str());
            scores.push(s);
            i = i + 1;
        }
        assert(scores@ =~= scores_for(self.candidates(), self.query@));
        let ghost sc = scores@;
        self.ranked = order_by_score(&scores);
        self.scores = scores;
        self.cursor = 0;
        proof {
            assert forall|j: int|
                0 <= j < self.candidates().len() && is_ascii_text(line_of(self.candidates()[j]))
                    && is_ascii_text(self.query()) implies (#[trigger] self.displays(j)
                <==> subsequence_ignoring_case(self.query(), line_of(self.candidates()[j]))) by {
                assert(self.candidates()[j] == self.candidates@[j]@);
                if sc[j] is Some {
                    let k = choose|k: int| 0 <= k < self.ranked@.len() && self.ranked@[k] == j;
                    assert(self.ranked()[k] == j);
                }
                if self.displays(j) {
                    let k = choose|k: int| 0 <= k < self.ranked().len() && self.ranked()[k] == j;
                    assert(self.scores@[self.ranked@[k] as int] is Some);
                }
            }
            if self.query@.len() == 0 {
                assert forall|j: int| 0 <= j < self.candidates().len() implies #[trigger] self.displays(j) by {
                    assert(sc[j] == Some(0i64));
                    let k = choose|k: int| 0 <= k < self.ranked@.len() && self.ranked@[k] == j;
                    assert(self.ranked()[k] == j);
                }
            }
        }
    }

    /// A selector over `candidates` with an empty query: every candidate is
    /// displayed and selectable, and the top line is highlighted.
    pub fn new(candidates: Vec<Bookmark>) -> (r: Selector)
        ensures
            r.wf(),
            r.shows_ranking(),
            r.filters_by_subsequence(),
            r.candidates() == rows_of(candidates@),
            r.query().len() == 0,
            r.cursor() == 0,
            forall|i: int| 0 <= i < candidates@.len() ==> #[trigger] r.displays(i),
    {
        let mut lines: Vec<String> = Vec::new();
        let mut i: usize = 0;
        while i < candidates.len()
            invariant
                i <= candidates@.len(),
                lines@.len() == i,
                forall|j: int| 0 <= j < i ==> (#[trigger] lines@[j])@ == line_of(candidates@[j]@),
            decreases candidates@.len() - i,
        {
            lines.push(render_line(&candidates[i]));
            i = i + 1;
        }
        let mut sel = Selector {
            candidates,
            lines,
            query: String::new(),
            scores: Vec::new(),
            ranked: Vec::new(),
            cursor: 0,
        };
        sel.refresh();
        proof {
            sel.lemma_wf_shows();
        }
        sel
    }

    /// The displayed bookmarks, top line first.
    pub fn shown(&self) -> (r: Vec<Bookmark>)
        requires
            self.wf(),
        ensures
            r@.len() == self.ranked().len(),
            forall|k: int| 0 <= k < r@.len() ==> (#[trigger] r@[k])@ == self.candidates()[self.ranked()[k] as int],
    {
        let mut out: Vec<Bookmark> = Vec::new();
        let mut k: usize = 0;
        while k < self.ranked.len()
            invariant
                self.wf(),
                k <= self.ranked@.len(),
                out@.len() == k,
                forall|j: int| 0 <= j < k ==> (#[trigger] out@[j])@ == self.candidates()[self.ranked()[j] as int],
            decreases self.ranked@.len() - k,
        {
            let c = self.ranked[k];
            out.push(self.candidates[c].duplicate());
            k = k + 1;
        }
        out
    }

    /// The position of the highlighted line in the displayed list.
    pub fn highlighted(&self) -> (r: usize)
        ensures
            r == self.cursor(),
    {
        self.cursor
    }

    /// The query typed so far.
    pub fn query_text(&self) -> (r: String)
        ensures
            r@ == self.query(),
    {
        self.query.clone()
    }

    /// Reacts to one input.
    ///
    /// Typing or erasing changes the query, ranks the candidates anew and
    /// highlights the top line; the selector then always waits for more, even
    /// when nothing matches. Up and Down move the highlight within the list.
    /// Confirm ends with the highlighted candidate, or with `None` when the
    /// list is empty; Cancel ends with `None`.
    pub fn handle(&mut self, key: Key) -> (r: Outcome)
        requires
            old(self).wf(),
        ensures
            final(self).wf(),
            final(self).shows_ranking(),
            final(self).filters_by_subsequence(),
            final(self).candidates() == old(self).candidates(),
            match key {
                Key::Type(c) => {
                    &&& final(self).query() == old(self).query().push(c)
                    &&& final(self).cursor() == 0
                    &&& r == Outcome::Pending
                },
                Key::Erase => {
                    &&& final(self).query() == (if old(self).query().len() > 0 {
                        old(self).query().drop_last()
                    } else {
                        old(self).query()
                    })
                    &&& final(self).cursor() == 0
                    &&& r == Outcome::Pending
                },
                Key::Up => {
                    &&& final(self).query() == old(self).query()
                    &&& final(self).ranked() == old(self).ranked()
                    &&& final(self).cursor() == (if old(self).cursor() > 0 {
                        (old(self).cursor() - 1) as nat
                    } else {
                        old(self).cursor()
                    })
                    &&& r == Outcome::Pending
                },
                Key::Down => {
                    &&& final(self).query() == old(self).query()
                    &&& final(self).ranked() == old(self).ranked()
                    &&& final(self).cursor() == (if old(self).cursor() + 1 < old(self).ranked().len() {
                        old(self).cursor() + 1
                    } else {
                        old(self).cursor()
                    })
                    &&& r == Outcome::Pending
                },
                Key::Confirm => {
                    &&& final(self).query() == old(self).query()
                    &&& final(self).ranked() == old(self).ranked()
                    &&& old(self).ranked().len() == 0 ==> r == Outcome::Done(None)
                    &&& old(self).ranked().len() > 0 ==> (r matches Outcome::Done(Some(b)) && b@
                        == old(self).candidates()[old(self).ranked()[old(self).cursor() as int] as int])
                },
                Key::Cancel => {
                    &&& final(self).query() == old(self).query()
                    &&& final(self).ranked() == old(self).ranked()
                    &&& r == Outcome::Done(None)
                },
            },
    {
        proof {
            self.lemma_wf_shows();
        }
        match key {
            Key::Type(c) => {
                push_char(&mut self.query, c);
                self.refresh();
                proof {
                    self.lemma_wf_shows();
                }
                Outcome::Pending
            },
            Key::Erase => {
                let _ = pop_char(&mut self.query);
                self.refresh();
                proof {
                    self.lemma_wf_shows();
                }
                Outcome::Pending
            },
            Key::Up => {
                if self.cursor > 0 {
                    self.cursor = self.cursor - 1;
                }
                proof {
                    lemma_cursor_only(old(self), self);
                }
                Outcome::Pending
            },
            Key::Down => {
                if self.ranked.len() > 0 && self.cursor < self.ranked.len() - 1 {
                    self.cursor = self.cursor + 1;
                }
                proof {
                    lemma_cursor_only(old(self), self);
                }
                Outcome::Pending
            },
            Key::Confirm => {
                if self.ranked.len() == 0 {
                    Outcome::Done(None)
                } else {
                    let k = self.ranked[self.cursor];
                    Outcome::Done(Some(self.candidates[k].duplicate()))
                }
            },
            Key::Cancel => Outcome::Done(None),
        }
    }
}

proof fn lemma_cursor_only(a: &Selector, b: &Selector)
    requires
        a.wf(),
        b.candidates@ == a.candidates@,
        b.lines@ == a.lines@,
        b.query@ == a.query@,
        b.scores@ == a.scores@,
        b.ranked@ == a.ranked@,
        b.ranked@.len() == 0 ==> b.cursor == 0,
        b.ranked@.len() > 0 ==> b.cursor < b.ranked@.len(),
    ensures
        b.wf(),
{
    assert forall|i: int|
        0 <= i < b.candidates().len() && is_ascii_text(line_of(b.candidates()[i])) && is_ascii_text(
            b.query(),
        ) implies (#[trigger] b.displays(i) <==> subsequence_ignoring_case(
        b.query(),
        line_of(b.candidates()[i]),
    )) by {
        assert(b.ranked() == a.ranked());
        assert(b.candidates() == a.candidates());
        assert(b.query() == a.query());
        assert(a.displays(i) <==> subsequence_ignoring_case(a.query(), line_of(a.candidates()[i])));
        if a.displays(i) {
            let k = choose|k: int| 0 <= k < a.ranked().len() && a.ranked()[k] == i;
            assert(b.ranked()[k] == i);
        }
        if b.displays(i) {
            let k = choose|k: int| 0 <= k < b.ranked().len() && b.ranked()[k] == i;
            assert(a.ranked()[k] == i);
        }
    }
}

/// `m` presses of Down, then Confirm.
pub open spec fn downs_then_confirm(m: nat) -> Seq<Key> {
    Seq::new(m, |i: int| Key::Down).push(Key::Confirm)
}

/// Moving the highlight down `m` lines from line `cur` and confirming chooses
/// the candidate shown on line `cur + m`: the one at that position of the
/// displayed list, whatever other candidates share its texts.
pub proof fn lemma_down_then_confirm(cands: Seq<BookmarkRow>, q: Seq<char>, cur: nat, m: nat)
    requires
        cur + m < ranking_of(cands, q).len(),
    ensures
        run_keys(cands, q, cur, downs_then_confirm(m)) == Some(
            Some(cands[ranking_of(cands, q)[(cur + m) as int] as int]),
        ),
    decreases m,
{
    let keys = downs_then_confirm(m);
    if m > 0 {
        assert(keys[0] == Key::Down);
        assert(keys.subrange(1, keys.len() as int) =~= downs_then_confirm((m - 1) as nat));
        lemma_down_then_confirm(cands, q, cur + 1, (m - 1) as nat);
    } else {
        assert(keys[0] == Key::Confirm);
    }
}

/// With an empty query, every candidate can be chosen: some number of Down
/// presses from the top line followed by Confirm chooses it.
pub proof fn lemma_empty_query_selectable(cands: Seq<BookmarkRow>, i: int)
    requires
        0 <= i < cands.len() <= usize::MAX,
        ranking_of(cands, Seq::empty()).contains(i as usize),
    ensures
        exists|m: nat| #[trigger] run_keys(cands, Seq::empty(), 0, downs_then_confirm(m)) == Some(Some(cands[i])),
{
    let r = ranking_of(cands, Seq::empty());
    let k = choose|k: int| 0 <= k < r.len() && r[k] == i as usize;
    lemma_down_then_confirm(cands, Seq::empty(), 0, k as nat);
    assert(r[(0 + k as nat) as int] as int == i);
    assert(run_keys(cands, Seq::empty(), 0, downs_then_confirm(k as nat)) == Some(Some(cands[i])));
}

/// Runs a selector over `candidates` on `keys`, from an empty query with the
/// top line highlighted, until a key ends it: the chosen bookmark, or `None`
/// when it was cancelled, confirmed on an empty list, or never ended.
pub fn search(candidates: Vec<Bookmark>, keys: &Vec<Key>) -> (r: Option<Bookmark>)
    ensures
        r is Some <==> run_keys(rows_of(candidates@), Seq::empty(), 0, keys@) matches Some(
            Some(_),
        ),
        r is Some ==> run_keys(rows_of(candidates@), Seq::empty(), 0, keys@) == Some(
            Some(r->0@),
        ),
        forall|i: int|
            0 <= i < candidates@.len() ==> #[trigger] ranking_of(
                rows_of(candidates@),
                Seq::empty(),
            ).contains(i as usize),
{
    let ghost cs = rows_of(candidates@);
    let ghost n = candidates@.len();
    let mut sel = Selector::new(candidates);
    proof {
        sel.lemma_wf_shows();
        assert(sel.query() =~= Seq::<char>::empty());
        assert forall|i: int| 0 <= i < n implies #[trigger] ranking_of(cs, Seq::empty()).contains(i as usize) by {
            assert(sel.displays(i));
            let k = choose|k: int| 0 <= k < sel.ranked().len() && sel.ranked()[k] == i;
            assert(ranking_of(cs, Seq::empty())[k] == i as usize);
        }
    }
    let mut i: usize = 0;
    assert(keys@.subrange(0, keys@.len() as int) =~= keys@);
    while i < keys.len()
        invariant
            sel.wf(),
            sel.candidates() == cs,
            cs == rows_of(candidates@),
            n == candidates@.len(),
            i <= keys@.len(),
            run_keys(cs, Seq::empty(), 0, keys@) == run_keys(
                cs,
                sel.query(),
                sel.cursor(),
                keys@.subrange(i as int, keys@.len() as int),
            ),
            forall|j: int| 0 <= j < n ==> #[trigger] ranking_of(cs, Seq::empty()).contains(j as usize),
        decreases keys@.len() - i,
    {
        let ghost q = sel.query();
        let ghost cur = sel.cursor();
        let ghost rest = keys@.subrange(i as int, keys@.len() as int);
        proof {
            sel.lemma_wf_shows();
            assert(rest[0] == keys@[i as int]);
            assert(rest.subrange(1, rest.len() as int) =~= keys@.subrange(i + 1, keys@.len() as int));
        }
        let key = keys[i];
        match sel.handle(key) {
            Outcome::Done(choice) => {
                proof {
                    assert(key is Confirm || key is Cancel);
                    assert(run_keys(cs, q, cur, rest) matches Some(c) && c == match choice {
                        Some(b) => Some(b@),
                        None => None::<BookmarkRow>,
                    });
                }
                return choice;
            },
            Outcome::Pending => {},
        }
        i = i + 1;
    }
    None
}

} // verus!
