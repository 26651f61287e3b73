use vstd::prelude::*;

use crate::card::{Card, CardView};
use vstd::string::StrSliceExecFns;

verus! {

/// Strict lexicographic order on character sequences, by code point.
/// It is the deterministic order in which a deck hands its composition to
/// the deck-code encoder, so that the code it gets back depends on the
/// composition alone and not on the order cards were observed in.
pub open spec fn lex_lt(a: Seq<char>, b: Seq<char>) -> bool
    decreases a.len(),
{
    if b.len() == 0 {
        false
    } else if a.len() == 0 {
        true
    } else if a[0] == b[0] {
        lex_lt(a.drop_first(), b.drop_first())
    } else {
        (a[0] as u32) < (b[0] as u32)
    }
}

pub proof fn lemma_lex_irrefl(a: Seq<char>)
    ensures
        !lex_lt(a, a),
    decreases a.len(),
{
    if a.len() > 0 {
        lemma_lex_irrefl(a.drop_first());
    }
}

pub proof fn lemma_lex_total(a: Seq<char>, b: Seq<char>)
    requires
        a != b,
    ensures
        lex_lt(a, b) || lex_lt(b, a),
    decreases a.len(),
{
    if a.len() == 0 && b.len() == 0 {
        assert(a =~= b);
    } else if a.len() > 0 && b.len() > 0 {
        if a[0] == b[0] {
            assert(a.drop_first() != b.drop_first()) by {
                if a.drop_first() == b.drop_first() {
                    assert(a.drop_first().len() == a.len() - 1);
                    assert(b.drop_first().len() == b.len() - 1);
                    assert(a.len() == b.len());
                    assert forall|i: int| 0 <= i < a.len() implies a[i] == b[i] by {
                        if i > 0 {
                            assert(a.drop_first()[i - 1] == a[i]);
                            assert(b.drop_first()[i - 1] == b[i]);
                        }
                    }
                    assert(a =~= b);
                }
            }
            lemma_lex_total(a.drop_first(), b.drop_first());
        } else {
            assert((a[0] as u32) != (b[0] as u32)) by {
                vstd::utf8::char_u32_cast(a[0], a[0] as u32);
                vstd::utf8::char_u32_cast(b[0], b[0] as u32);
            }
        }
    }
}

pub proof fn lemma_lex_trans(a: Seq<char>, b: Seq<char>, c: Seq<char>)
    requires
        lex_lt(a, b),
        lex_lt(b, c),
    ensures
        lex_lt(a, c),
    decreases a.len(),
{
    if a.len() > 0 && b.len() > 0 && c.len() > 0 {
        if a[0] == b[0] && b[0] == c[0] {
            lemma_lex_trans(a.drop_first(), b.drop_first(), c.drop_first());
        }
    }
}

proof fn lemma_lex_skip_step(a: Seq<char>, b: Seq<char>, i: int)
    requires
        0 <= i < a.len(),
        0 <= i < b.len(),
        a[i] == b[i],
    ensures
        lex_lt(a.skip(i), b.skip(i)) == lex_lt(a.skip(i + 1), b.skip(i + 1)),
{
    assert(a.skip(i).len() > 0);
    assert(b.skip(i).len() > 0);
    assert(a.skip(i)[0] == a[i]);
    assert(b.skip(i)[0] == b[i]);
    assert(a.skip(i).drop_first() =~= a.skip(i + 1));
    assert(b.skip(i).drop_first() =~= b.skip(i + 1));
}

/// Whether `a` comes strictly before `b` in code-point order.
fn str_lt(a: &str, b: &str) -> (r: bool)
    ensures
        r == lex_lt(a@, b@),
{
    let a_len = a.unicode_len();
    let b_len = b.unicode_len();
    let mut i: usize = 0;
    proof {
        assert(a@.skip(0) =~= a@);
        assert(b@.skip(0) =~= b@);
    }
    while i < a_len && i < b_len
        invariant
            a_len == a@.len(),
            b_len == b@.len(),
            i <= a_len,
            i <= b_len,
            lex_lt(a@, b@) == lex_lt(a@.skip(i as int), b@.skip(i as int)),
        decreases a_len - i,
    {
        let ca = a.get_char(i);
        let cb = b.get_char(i);
        if ca == cb {
            proof {
                lemma_lex_skip_step(a@, b@, i as int);
            }
            i = i + 1;
        } else {
            proof {
                assert(a@.skip(i as int)[0] == a@[i as int]);
                assert(b@.skip(i as int)[0] == b@[i as int]);
            }
            return (ca as u32) < (cb as u32);
        }
    }
    if i < b_len {
        proof {
            assert(a@.skip(i as int) =~= Seq::empty());
            assert(b@.skip(i as int).len() > 0);
        }
        true
    } else {
        proof {
            assert(b@.skip(i as int) =~= Seq::empty());
        }
        false
    }
}

// ------------------------------------------------------------------
// The deck model: an association list of (card, count) entries, kept
// strictly sorted by card code.
// ------------------------------------------------------------------

/// Entries are strictly sorted by card code (which also makes the codes
/// pairwise distinct) and every count is at least one.
pub open spec fn wf_entries(e: Seq<(CardView, i32)>) -> bool {
    &&& forall|i: int, j: int|
        0 <= i < j < e.len() ==> lex_lt(e[i].0.card_code, e[j].0.card_code)
    &&& forall|i: int| 0 <= i < e.len() ==> e[i].1 >= 1
}

/// How many copies of the card with `code` the entries hold; zero when no
/// entry carries the code.
pub open spec fn entry_count(e: Seq<(CardView, i32)>, code: Seq<char>) -> int
    decreases e.len(),
{
    if e.len() == 0 {
        0
    } else if e[0].0.card_code == code {
        e[0].1 as int
    } else {
        entry_count(e.drop_first(), code)
    }
}

pub open spec fn has_entry(e: Seq<(CardView, i32)>, code: Seq<char>) -> bool {
    exists|i: int| 0 <= i < e.len() && e[i].0.card_code == code
}

/// The card stored for `code`, if any entry carries it.
pub open spec fn entry_card(e: Seq<(CardView, i32)>, code: Seq<char>) -> Option<CardView>
    decreases e.len(),
{
    if e.len() == 0 {
        None
    } else if e[0].0.card_code == code {
        Some(e[0].0)
    } else {
        entry_card(e.drop_first(), code)
    }
}

pub proof fn lemma_has_entry_card(e: Seq<(CardView, i32)>, code: Seq<char>)
    ensures
        has_entry(e, code) <==> entry_card(e, code) is Some,
    decreases e.len(),
{
    if e.len() > 0 && e[0].0.card_code != code {
        lemma_has_entry_card(e.drop_first(), code);
        assert forall|i: int|
            0 <= i < e.len() && e[i].0.card_code == code implies has_entry(
            e.drop_first(),
            code,
        ) by {
            assert(e.drop_first()[i - 1] == e[i]);
        }
        if has_entry(e.drop_first(), code) {
            let i = choose|i: int|
                0 <= i < e.drop_first().len() && e.drop_first()[i].0.card_code == code;
            assert(e[i + 1] == e.drop_first()[i]);
        }
    }
}

/// One card observed once more: the count of its code is raised by one
/// (it sticks at the top of the count range rather than wrapping), the
/// card kept for a code already present is the one first recorded, and a
/// new code is filed at its place in code order.
pub open spec fn spec_add_entry(e: Seq<(CardView, i32)>, cv: CardView) -> Seq<(CardView, i32)>
    decreases e.len(),
{
    if e.len() == 0 {
        seq![(cv, 1 as i32)]
    } else if e[0].0.card_code == cv.card_code {
        seq![
            (e[0].0, if e[0].1 < i32::MAX {
                (e[0].1 + 1) as i32
            } else {
                e[0].1
            }),
        ] + e.drop_first()
    } else if lex_lt(cv.card_code, e[0].0.card_code) {
        seq![(cv, 1 as i32)] + e
    } else {
        seq![e[0]] + spec_add_entry(e.drop_first(), cv)
    }
}

/// A whole list of observed cards grouped into entries, in order.
pub open spec fn spec_group(cards: Seq<CardView>) -> Seq<(CardView, i32)>
    decreases cards.len(),
{
    if cards.len() == 0 {
        Seq::empty()
    } else {
        spec_add_entry(spec_group(cards.drop_last()), cards.last())
    }
}

pub proof fn lemma_add_entry_wf(e: Seq<(CardView, i32)>, cv: CardView)
    requires
        wf_entries(e),
    ensures
        wf_entries(spec_add_entry(e, cv)),
    decreases e.len(),
{
    if e.len() == 0 {
    } else if e[0].0.card_code == cv.card_code {
        let r = spec_add_entry(e, cv);
        assert forall|i: int, j: int|
            0 <= i < j < r.len() implies lex_lt(r[i].0.card_code, r[j].0.card_code) by {
            assert(r[i] == if i == 0 {
                r[0]
            } else {
                e[i]
            });
            assert(r[j] == e[j]);
        }
    } else if lex_lt(cv.card_code, e[0].0.card_code) {
        let r = seq![(cv, 1 as i32)] + e;
        assert forall|i: int, j: int|
            0 <= i < j < r.len() implies lex_lt(r[i].0.card_code, r[j].0.card_code) by {
            if i == 0 {
                assert(r[j] == e[j - 1]);
                if j > 1 {
                    lemma_lex_trans(cv.card_code, e[0].0.card_code, e[j - 1].0.card_code);
                }
            } else {
                assert(r[i] == e[i - 1]);
                assert(r[j] == e[j - 1]);
            }
        }
    } else {
        assert(wf_entries(e.drop_first())) by {
            assert forall|i: int, j: int|
                0 <= i < j < e.drop_first().len() implies lex_lt(
                e.drop_first()[i].0.card_code,
                e.drop_first()[j].0.card_code,
            ) by {
                assert(e.drop_first()[i] == e[i + 1]);
                assert(e.drop_first()[j] == e[j + 1]);
            }
        }
        lemma_add_entry_wf(e.drop_first(), cv);
        let tail = spec_add_entry(e.drop_first(), cv);
        let r = seq![e[0]] + tail;
        assert(cv.card_code != e[0].0.card_code);
        lemma_lex_total(cv.card_code, e[0].0.card_code);
        assert(lex_lt(e[0].0.card_code, cv.card_code));
        lemma_add_entry_head_order(e.drop_first(), cv, e[0].0.card_code);
        assert forall|i: int, j: int|
            0 <= i < j < r.len() implies lex_lt(r[i].0.card_code, r[j].0.card_code) by {
            if i == 0 {
                assert(r[j] == tail[j - 1]);
            } else {
                assert(r[i] == tail[i - 1]);
                assert(r[j] == tail[j - 1]);
            }
        }
    }
}

/// Every code of the grown entries is above any bound that sat below all
/// old codes and below the new one.
proof fn lemma_add_entry_head_order(e: Seq<(CardView, i32)>, cv: CardView, bound: Seq<char>)
    requires
        forall|i: int| 0 <= i < e.len() ==> lex_lt(bound, e[i].0.card_code),
        lex_lt(bound, cv.card_code),
    ensures
        forall|i: int|
            0 <= i < spec_add_entry(e, cv).len() ==> lex_lt(
                bound,
                spec_add_entry(e, cv)[i].0.card_code,
            ),
    decreases e.len(),
{
    let r = spec_add_entry(e, cv);
    if e.len() == 0 {
    } else if e[0].0.card_code == cv.card_code {
        assert forall|i: int| 0 <= i < r.len() implies lex_lt(bound, r[i].0.card_code) by {
            if i > 0 {
                assert(r[i] == e[i]);
            }
        }
    } else if lex_lt(cv.card_code, e[0].0.card_code) {
        assert forall|i: int| 0 <= i < r.len() implies lex_lt(bound, r[i].0.card_code) by {
            if i > 0 {
                assert(r[i] == e[i - 1]);
            }
        }
    } else {
        assert forall|i: int|
            0 <= i < e.drop_first().len() implies lex_lt(
            bound,
            e.drop_first()[i].0.card_code,
        ) by {
            assert(e.drop_first()[i] == e[i + 1]);
        }
        lemma_add_entry_head_order(e.drop_first(), cv, bound);
        let tail = spec_add_entry(e.drop_first(), cv);
        assert forall|i: int| 0 <= i < r.len() implies lex_lt(bound, r[i].0.card_code) by {
            if i > 0 {
                assert(r[i] == tail[i - 1]);
            }
        }
    }
}

proof fn lemma_wf_drop(e: Seq<(CardView, i32)>)
    requires
        wf_entries(e),
        e.len() > 0,
    ensures
        wf_entries(e.drop_first()),
{
    assert forall|i: int, j: int|
        0 <= i < j < e.drop_first().len() implies lex_lt(
        e.drop_first()[i].0.card_code,
        e.drop_first()[j].0.card_code,
    ) by {
        assert(e.drop_first()[i] == e[i + 1]);
        assert(e.drop_first()[j] == e[j + 1]);
    }
    assert(forall|i: int| 0 <= i < e.drop_first().len() ==> e.drop_first()[i] == e[i + 1]);
}

proof fn lemma_has_drop(e: Seq<(CardView, i32)>, code: Seq<char>)
    requires
        e.len() > 0,
        e[0].0.card_code != code,
    ensures
        has_entry(e, code) <==> has_entry(e.drop_first(), code),
{
    if has_entry(e, code) {
        let i = choose|i: int| 0 <= i < e.len() && e[i].0.card_code == code;
        assert(e.drop_first()[i - 1] == e[i]);
    }
    if has_entry(e.drop_first(), code) {
        let i = choose|i: int|
            0 <= i < e.drop_first().len() && e.drop_first()[i].0.card_code == code;
        assert(e[i + 1] == e.drop_first()[i]);
    }
}

/// With well-formed entries a code is present exactly when its count is
/// positive.
pub proof fn lemma_entry_count_pos(e: Seq<(CardView, i32)>, code: Seq<char>)
    requires
        wf_entries(e),
    ensures
        has_entry(e, code) <==> entry_count(e, code) > 0,
    decreases e.len(),
{
    if e.len() > 0 {
        if e[0].0.card_code == code {
        } else {
            lemma_wf_drop(e);
            lemma_has_drop(e, code);
            lemma_entry_count_pos(e.drop_first(), code);
        }
    }
}

/// The saturating bump that one more observation gives a count.
pub open spec fn bump(n: int) -> int {
    if n < i32::MAX {
        n + 1
    } else {
        n
    }
}

/// What one more observed card does to each code's count: its own code
/// counts one more (from zero when it is new), every other code keeps its
/// count.
pub proof fn lemma_add_entry_count(e: Seq<(CardView, i32)>, cv: CardView, code: Seq<char>)
    requires
        wf_entries(e),
    ensures
        entry_count(spec_add_entry(e, cv), code) == if code == cv.card_code {
            if has_entry(e, code) {
                bump(entry_count(e, code))
            } else {
                1
            }
        } else {
            entry_count(e, code)
        },
    decreases e.len(),
{
    reveal_with_fuel(entry_count, 2);
    let r = spec_add_entry(e, cv);
    if e.len() == 0 {
        assert(r[0] == (cv, 1 as i32));
        assert(r.drop_first() =~= Seq::<(CardView, i32)>::empty());
    } else if e[0].0.card_code == cv.card_code {
        assert(r[0] == (e[0].0, if e[0].1 < i32::MAX {
            (e[0].1 + 1) as i32
        } else {
            e[0].1
        }));
        assert(r.drop_first() =~= e.drop_first());
        if code == cv.card_code {
            assert(0 <= 0 < e.len() && e[0].0.card_code == code);
            assert(has_entry(e, code));
        }
    } else if lex_lt(cv.card_code, e[0].0.card_code) {
        assert forall|i: int| 0 <= i < e.len() implies e[i].0.card_code != cv.card_code by {
            if i > 0 {
                lemma_lex_trans(cv.card_code, e[0].0.card_code, e[i].0.card_code);
            }
            lemma_lex_irrefl(e[i].0.card_code);
        }
        assert(r[0] == (cv, 1 as i32));
        assert(r.drop_first() =~= e);
    } else {
        lemma_wf_drop(e);
        lemma_add_entry_count(e.drop_first(), cv, code);
        assert(r[0] == e[0]);
        assert(r.drop_first() =~= spec_add_entry(e.drop_first(), cv));
        if e[0].0.card_code == code {
            assert(0 <= 0 < e.len() && e[0].0.card_code == code);
            assert(has_entry(e, code));
        } else {
            lemma_has_drop(e, code);
        }
    }
}

/// What one more observed card does to the card kept for each code: a
/// code already present keeps the card first recorded for it; the new
/// card is kept only for its own, previously absent, code.
pub proof fn lemma_add_entry_card(e: Seq<(CardView, i32)>, cv: CardView, code: Seq<char>)
    requires
        wf_entries(e),
    ensures
        entry_card(spec_add_entry(e, cv), code) == if has_entry(e, code) {
            entry_card(e, code)
        } else if code == cv.card_code {
            Some(cv)
        } else {
            None
        },
    decreases e.len(),
{
    reveal_with_fuel(entry_card, 2);
    let r = spec_add_entry(e, cv);
    lemma_has_entry_card(e, code);
    if e.len() == 0 {
        assert(r[0] == (cv, 1 as i32));
    } else if e[0].0.card_code == cv.card_code {
        assert(r[0] == (e[0].0, if e[0].1 < i32::MAX {
            (e[0].1 + 1) as i32
        } else {
            e[0].1
        }));
        assert(r.drop_first() =~= e.drop_first());
        if e[0].0.card_code == code {
            assert(e[0].0.card_code == code && 0 < e.len());
            assert(has_entry(e, code));
        } else {
            lemma_wf_drop(e);
            lemma_has_drop(e, code);
            lemma_has_entry_card(e.drop_first(), code);
        }
    } else if lex_lt(cv.card_code, e[0].0.card_code) {
        assert(r[0] == (cv, 1 as i32));
        assert(r.drop_first() =~= e);
        if code == cv.card_code {
            assert forall|i: int| 0 <= i < e.len() implies e[i].0.card_code != code by {
                if i > 0 {
                    lemma_lex_trans(cv.card_code, e[0].0.card_code, e[i].0.card_code);
                }
                lemma_lex_irrefl(e[i].0.card_code);
            }
        }
    } else {
        lemma_wf_drop(e);
        lemma_add_entry_card(e.drop_first(), cv, code);
        assert(r[0] == e[0]);
        assert(r.drop_first() =~= spec_add_entry(e.drop_first(), cv));
        if e[0].0.card_code == code {
            assert(0 <= 0 < e.len() && e[0].0.card_code == code);
            assert(has_entry(e, code));
        } else {
            lemma_has_drop(e, code);
            lemma_has_entry_card(e.drop_first(), code);
        }
    }
}

/// How many cards in a list carry `code`.
pub open spec fn count_code(cards: Seq<CardView>, code: Seq<char>) -> int {
    cards.filter(|c: CardView| c.card_code == code).len() as int
}

/// The first card in a list carrying `code`, if any.
pub open spec fn spec_find_cv(cards: Seq<CardView>, code: Seq<char>) -> Option<CardView>
    decreases cards.len(),
{
    if cards.len() == 0 {
        None
    } else if cards[0].card_code == code {
        Some(cards[0])
    } else {
        spec_find_cv(cards.drop_first(), code)
    }
}

pub proof fn lemma_find_cv_push(cards: Seq<CardView>, c: CardView, code: Seq<char>)
    ensures
        spec_find_cv(cards.push(c), code) == match spec_find_cv(cards, code) {
            Some(found) => Some(found),
            None => if c.card_code == code {
                Some(c)
            } else {
                None
            },
        },
    decreases cards.len(),
{
    if cards.len() == 0 {
        assert(cards.push(c).drop_first() =~= Seq::empty());
        assert(cards =~= Seq::empty());
    } else {
        assert(cards.push(c).drop_first() =~= cards.drop_first().push(c));
        lemma_find_cv_push(cards.drop_first(), c, code);
    }
}

/// Grouping a card list yields well-formed entries whose counts are the
/// codes' multiplicities in the list and whose kept card per code is the
/// first instance observed.
pub proof fn lemma_grouping_counts(cards: Seq<CardView>, code: Seq<char>)
    requires
        cards.len() <= i32::MAX,
    ensures
        wf_entries(spec_group(cards)),
        entry_count(spec_group(cards), code) == count_code(cards, code),
        has_entry(spec_group(cards), code) <==> count_code(cards, code) > 0,
        entry_card(spec_group(cards), code) == spec_find_cv(cards, code),
    decreases cards.len(),
{
    broadcast use vstd::seq_lib::group_filter_ensures;

    if cards.len() == 0 {
        assert(cards.filter(|c: CardView| c.card_code == code) =~= Seq::empty());
    } else {
        let prev = cards.drop_last();
        let last = cards.last();
        let g = spec_group(prev);
        lemma_grouping_counts(prev, code);
        assert(prev.push(last) =~= cards);
        assert(prev.filter(|c: CardView| c.card_code == code).len() <= prev.len());
        lemma_add_entry_wf(g, last);
        lemma_add_entry_count(g, last, code);
        lemma_add_entry_card(g, last, code);
        lemma_entry_count_pos(g, code);
        lemma_entry_count_pos(spec_add_entry(g, last), code);
        lemma_find_cv_push(prev, last, code);
        lemma_has_entry_card(g, code);
        prev.lemma_filter_push(last, |c: CardView| c.card_code == code);
        assert(cards.filter(|c: CardView| c.card_code == code) == if last.card_code == code {
            prev.filter(|c: CardView| c.card_code == code).push(last)
        } else {
            prev.filter(|c: CardView| c.card_code == code)
        });
    }
}

// ------------------------------------------------------------------
// The deck-code encoder, an outside dependency.
// ------------------------------------------------------------------

/// What the outside deck-code encoder returns for a composition, given as
/// the map from card code to count: the printable code, or nothing when
/// the encoder rejects a code (wrong length, unknown set or faction).
/// Which of the two happens is the encoder's own rule; nothing more is
/// assumed of it than that it depends on the composition alone.
pub uninterp spec fn deck_code_of(pairs: Map<Seq<char>, int>) -> Option<Seq<char>>;

/// The composition that a pair list stands for.
pub open spec fn pairs_to_map(s: Seq<(Seq<char>, i32)>) -> Map<Seq<char>, int> {
    Map::new(
        |code: Seq<char>| exists|i: int| 0 <= i < s.len() && s[i].0 == code,
        |code: Seq<char>|
            s[choose|i: int| 0 <= i < s.len() && s[i].0 == code].1 as int,
    )
}

/// The (code, count) pairs of an entry list.
pub open spec fn entries_pairs(e: Seq<(CardView, i32)>) -> Seq<(Seq<char>, i32)> {
    e.map_values(|p: (CardView, i32)| (p.0.card_code, p.1))
}

pub open spec fn entries_map(e: Seq<(CardView, i32)>) -> Map<Seq<char>, int> {
    pairs_to_map(entries_pairs(e))
}

pub open spec fn all_codes_ascii(e: Seq<(CardView, i32)>) -> bool {
    forall|i: int| 0 <= i < e.len() ==> vstd::utf8::is_ascii_chars(#[trigger] e[i].0.card_code)
}

/// The deck code that this crate keeps for an entry list: the encoder's
/// answer for its composition. The encoder is only reached for all-ASCII
/// codes (it slices codes at fixed byte offsets, which is meaningless
/// otherwise); a composition with any other code keeps no deck code, as
/// the encoder would reject such a code anyway.
pub open spec fn spec_code_result(e: Seq<(CardView, i32)>) -> Option<Seq<char>> {
    if all_codes_ascii(e) {
        deck_code_of(entries_map(e))
    } else {
        None
    }
}

/// Relies on lordeckcodes: `CardCodeAndCount::from_data` on each pair and
/// `encoder::code_from_deck` on the list. Both are pure: their result,
/// the printable code or a rejection, depends only on the pair list. The
/// caller hands the pairs strictly sorted by code, so the list — and with
/// it the encoder's answer — is determined by the composition map alone;
/// the ASCII bound keeps `from_data`'s fixed-offset slicing of the code
/// on character boundaries.
#[verifier::external_body]
fn encode_pairs(pairs: &Vec<(String, i32)>) -> (r: Option<String>)
    requires
        forall|i: int|
            0 <= i < pairs@.len() ==> vstd::utf8::is_ascii_chars(#[trigger] pairs@[i].0@),
        forall|i: int, j: int|
            0 <= i < j < pairs@.len() ==> lex_lt(pairs@[i].0@, pairs@[j].0@),
    ensures
        r.deep_view() == deck_code_of(
            pairs_to_map(pairs@.map_values(|p: (String, i32)| (p.0@, p.1))),
        ),
{
    let mut list = Vec::new();
    for (code, count) in pairs.iter() {
        match lordeckcodes::CardCodeAndCount::from_data(code.as_str(), *count) {
            Ok(c) => list.push(c),
            Err(_) => return None,
        }
    }
    lordeckcodes::encoder::code_from_deck(&lordeckcodes::Deck::from_vec(list)).ok()
}

/// The models of an exec entry list.
pub open spec fn deck_entries(cards: Seq<(Card, i32)>) -> Seq<(CardView, i32)> {
    cards.map_values(|p: (Card, i32)| (p.0@, p.1))
}

/// Compute the deck code for well-formed entries: hand the (code, count)
/// pairs to the encoder in entry order, which is code order. A deck with
/// any non-ASCII code keeps no deck code.
fn compute_code(cards: &Vec<(Card, i32)>) -> (r: Option<String>)
    requires
        wf_entries(deck_entries(cards@)),
    ensures
        r.deep_view() == spec_code_result(deck_entries(cards@)),
{
    let ghost ev = deck_entries(cards@);
    let mut pairs: Vec<(String, i32)> = Vec::new();
    let mut i: usize = 0;
    while i < cards.len()
        invariant
            i <= cards@.len(),
            ev == deck_entries(cards@),
            pairs@.len() == i,
            forall|j: int|
                0 <= j < i ==> (#[trigger] pairs@[j]).0@ == ev[j].0.card_code && pairs@[j].1
                    == ev[j].1,
            forall|j: int| 0 <= j < i ==> vstd::utf8::is_ascii_chars((#[trigger] pairs@[j]).0@),
        decreases cards@.len() - i,
    {
        let code = cards[i].0.card_code.clone();
        if !code.as_str().is_ascii() {
            proof {
                assert(ev[i as int].0.card_code == code@);
                assert(!all_codes_ascii(ev));
            }
            return None;
        }
        let count = cards[i].1;
        pairs.push((code, count));
        i = i + 1;
    }
    proof {
        assert(pairs@.map_values(|p: (String, i32)| (p.0@, p.1)) =~= entries_pairs(ev));
        assert forall|k: int|
            0 <= k < ev.len() implies vstd::utf8::is_ascii_chars(
            (#[trigger] ev[k]).0.card_code,
        ) by {
            assert(pairs@[k].0@ == ev[k].0.card_code);
        }
        assert(all_codes_ascii(ev));
    }
    encode_pairs(&pairs)
}

/// File one more observed card into a sorted entry list: raise the count
/// of its code, or open a new entry at the code's place in order.
fn add_one_entry(entries: &mut Vec<(Card, i32)>, card: Card)
    requires
        wf_entries(deck_entries(old(entries)@)),
    ensures
        deck_entries(final(entries)@) == spec_add_entry(deck_entries(old(entries)@), card@),
        wf_entries(deck_entries(final(entries)@)),
{
    let ghost v = deck_entries(entries@);
    let ghost cv = card@;
    proof {
        lemma_add_entry_wf(v, cv);
    }
    let mut i: usize = 0;
    proof {
        assert(v.skip(0) =~= v);
        assert(v.take(0) =~= Seq::empty());
        assert(v.take(0) + spec_add_entry(v.skip(0), cv) =~= spec_add_entry(v, cv));
    }
    while i < entries.len()
        invariant
            i <= entries@.len(),
            entries@ == old(entries)@,
            v == deck_entries(entries@),
            cv == card@,
            wf_entries(v),
            wf_entries(spec_add_entry(v, cv)),
            forall|j: int| 0 <= j < i ==> lex_lt((#[trigger] v[j]).0.card_code, cv.card_code),
            spec_add_entry(v, cv) == v.take(i as int) + spec_add_entry(v.skip(i as int), cv),
        decreases entries@.len() - i,
    {
        proof {
            assert(v.skip(i as int)[0] == v[i as int]);
            assert(v.skip(i as int).drop_first() =~= v.skip(i as int + 1));
        }
        if entries[i].0.card_code == card.card_code {
            let (c, n) = entries.remove(i);
            let n2: i32 = if n < i32::MAX {
                n + 1
            } else {
                n
            };
            entries.insert(i, (c, n2));
            proof {
                assert(spec_add_entry(v.skip(i as int), cv) == seq![(v[i as int].0, n2)]
                    + v.skip(i as int + 1));
                assert(deck_entries(entries@) =~= v.take(i as int) + spec_add_entry(
                    v.skip(i as int),
                    cv,
                ));
            }
            return;
        }
        if str_lt(card.card_code.as_str(), entries[i].0.card_code.as_str()) {
            entries.insert(i, (card, 1));
            proof {
                assert(spec_add_entry(v.skip(i as int), cv) == seq![(cv, 1 as i32)] + v.skip(
                    i as int,
                ));
                assert(deck_entries(entries@) =~= v.take(i as int) + spec_add_entry(
                    v.skip(i as int),
                    cv,
                ));
            }
            return;
        }
        proof {
            lemma_lex_total(cv.card_code, v[i as int].0.card_code);
            assert(spec_add_entry(v.skip(i as int), cv) == seq![v[i as int]] + spec_add_entry(
                v.skip(i as int + 1),
                cv,
            ));
            assert(v.take(i as int) + spec_add_entry(v.skip(i as int), cv) =~= v.take(
                i as int + 1,
            ) + spec_add_entry(v.skip(i as int + 1), cv));
        }
        i = i + 1;
    }
    proof {
        assert(v.skip(i as int) =~= Seq::empty());
        assert(v.take(i as int) =~= v);
    }
    entries.push((card, 1));
    proof {
        assert(deck_entries(entries@) =~= v + seq![(cv, 1 as i32)]);
        assert(v + spec_add_entry(Seq::empty(), cv) =~= v + seq![(cv, 1 as i32)]);
    }
}

/// A deck: how many copies of each card one side is known to hold or to
/// have played, its win/loss record, and the deck code derived from the
/// composition. Entries are kept sorted by card code, and the code is
/// recomputed on every change of the composition, so that it is always
/// the encoder's answer for the current composition.
pub struct Deck {
    cards: Vec<(Card, i32)>,
    deck_code: Option<String>,
    wins: i16,
    losses: i16,
}

impl Deck {
    /// The (card, count) entries, as models.
    pub closed spec fn spec_entries(&self) -> Seq<(CardView, i32)> {
        deck_entries(self.cards@)
    }

    /// The cached deck code, as a model.
    pub closed spec fn spec_deck_code(&self) -> Option<Seq<char>> {
        self.deck_code.deep_view()
    }

    pub closed spec fn spec_wins(&self) -> i16 {
        self.wins
    }

    pub closed spec fn spec_losses(&self) -> i16 {
        self.losses
    }

    /// Entries sorted with counts at least one, and the cached code equal
    /// to the encoder's answer for the composition.
    pub open spec fn wf(&self) -> bool {
        &&& wf_entries(self.spec_entries())
        &&& self.spec_deck_code() == spec_code_result(self.spec_entries())
    }

    /// Build a deck from a flat list of observed cards: group them by
    /// card code, keeping for each code the first card observed with it,
    /// then ask the encoder once for the grouped composition's code.
    pub fn new(cards: Vec<Card>, wins: i16, losses: i16) -> (r: Deck)
        requires
            cards@.len() <= i32::MAX,
        ensures
            r.wf(),
            r.spec_entries() == spec_group(cards@.map_values(|c: Card| c@)),
            r.spec_wins() == wins,
            r.spec_losses() == losses,
    {
        let ghost cvs = cards@.map_values(|c: Card| c@);
        let mut entries: Vec<(Card, i32)> = Vec::new();
        let mut i: usize = 0;
        proof {
            assert(cvs.take(0) =~= Seq::empty());
            assert(deck_entries(entries@) =~= spec_group(cvs.take(0)));
        }
        while i < cards.len()
            invariant
                i <= cards@.len(),
                cvs == cards@.map_values(|c: Card| c@),
                deck_entries(entries@) == spec_group(cvs.take(i as int)),
                wf_entries(deck_entries(entries@)),
            decreases cards@.len() - i,
        {
            let card = cards[i].clone();
            proof {
                assert(cvs.take(i as int).push(cvs[i as int]) =~= cvs.take(i as int + 1));
                assert(cvs.take(i as int + 1).drop_last() =~= cvs.take(i as int));
                assert(card@ == cvs[i as int]);
            }
            add_one_entry(&mut entries, card);
            i = i + 1;
        }
        proof {
            assert(cvs.take(cvs.len() as int) =~= cvs);
        }
        let deck_code = compute_code(&entries);
        Deck { cards: entries, deck_code, wins, losses }
    }

    /// Record one more observed card and refresh the deck code for the
    /// changed composition.
    pub fn add_card(&mut self, card: Card)
        requires
            old(self).wf(),
        ensures
            final(self).wf(),
            final(self).spec_entries() == spec_add_entry(old(self).spec_entries(), card@),
            final(self).spec_wins() == old(self).spec_wins(),
            final(self).spec_losses() == old(self).spec_losses(),
    {
        add_one_entry(&mut self.cards, card);
        self.deck_code = compute_code(&self.cards);
    }

    /// The cached deck code; absent when the encoder rejected the
    /// composition.
    pub fn deck_code(&self) -> (r: &Option<String>)
        ensures
            r.deep_view() == self.spec_deck_code(),
    {
        &self.deck_code
    }

    pub fn wins(&self) -> (r: i16)
        ensures
            r == self.spec_wins(),
    {
        self.wins
    }

    pub fn losses(&self) -> (r: i16)
        ensures
            r == self.spec_losses(),
    {
        self.losses
    }

    /// The entries, for callers that read the composition directly.
    pub fn cards(&self) -> (r: &Vec<(Card, i32)>)
        ensures
            deck_entries(r@) == self.spec_entries(),
    {
        &self.cards
    }
}

/// A champion card: its catalog rarity is exactly "Champion".
pub open spec fn is_champion(cv: CardView) -> bool {
    cv.rarity == Some("Champion"@)
}

impl Deck {
    /// The distinct champion cards of the deck, in code order.
    pub fn get_champions(&self) -> (r: Vec<Card>)
        ensures
            r@.map_values(|c: Card| c@) == self.spec_entries().filter(
                |p: (CardView, i32)| is_champion(p.0),
            ).map_values(|p: (CardView, i32)| p.0),
    {
        let champion: String = "Champion".to_owned();
        let mut out: Vec<Card> = Vec::new();
        let mut i: usize = 0;
        let ghost ev = self.spec_entries();
        proof {
            assert(ev.take(0) =~= Seq::empty());
            assert(ev.take(0).filter(|p: (CardView, i32)| is_champion(p.0)) =~= Seq::empty());
            assert(out@.map_values(|c: Card| c@) =~= Seq::empty());
        }
        while i < self.cards.len()
            invariant
                i <= self.cards@.len(),
                ev == self.spec_entries(),
                champion@ == "Champion"@,
                out@.map_values(|c: Card| c@) == ev.take(i as int).filter(
                    |p: (CardView, i32)| is_champion(p.0),
                ).map_values(|p: (CardView, i32)| p.0),
            decreases self.cards@.len() - i,
        {
            proof {
                assert(ev.take(i as int).push(ev[i as int]) =~= ev.take(i as int + 1));
                ev.take(i as int).lemma_filter_push(
                    ev[i as int],
                    |p: (CardView, i32)| is_champion(p.0),
                );
            }
            proof {
                assert(ev[i as int] == (self.cards@[i as int].0@, self.cards@[i as int].1));
            }
            let keep = match &self.cards[i].0.rarity {
                Some(r) => *r == champion,
                None => false,
            };
            proof {
                assert(keep == is_champion(ev[i as int].0));
            }
            let ghost out0 = out@.map_values(|c: Card| c@);
            if keep {
                out.push(self.cards[i].0.clone());
                proof {
                    assert(out@.map_values(|c: Card| c@) =~= out0.push(ev[i as int].0));
                }
            }
            proof {
                let p = |p: (CardView, i32)| is_champion(p.0);
                let g = |p: (CardView, i32)| p.0;
                if keep {
                    assert(ev.take(i as int + 1).filter(p) == ev.take(i as int).filter(p).push(
                        ev[i as int],
                    ));
                    assert(ev.take(i as int + 1).filter(p).map_values(g) =~= ev.take(
                        i as int,
                    ).filter(p).map_values(g).push(ev[i as int].0));
                } else {
                    assert(ev.take(i as int + 1).filter(p) == ev.take(i as int).filter(p));
                }
            }
            i = i + 1;
        }
        proof {
            assert(ev.take(ev.len() as int) =~= ev);
        }
        out
    }
}

// ------------------------------------------------------------------
// Regions: the two most frequent regions over the distinct entries.
// ------------------------------------------------------------------

/// The regions one entry's card contributes; a card without catalog data
/// contributes none.
pub open spec fn entry_regions(cv: CardView) -> Seq<Seq<char>> {
    match cv.regions {
        Some(rs) => rs,
        None => Seq::empty(),
    }
}

/// All region mentions over the entries, one batch per distinct entry, in
/// entry order: the sequence whose multiplicities the selection ranks.
pub open spec fn deck_region_seq(e: Seq<(CardView, i32)>) -> Seq<Seq<char>>
    decreases e.len(),
{
    if e.len() == 0 {
        Seq::empty()
    } else {
        deck_region_seq(e.drop_last()) + entry_regions(e.last().0)
    }
}

/// How often `r` is mentioned in `flat`.
pub open spec fn count_in(flat: Seq<Seq<char>>, r: Seq<char>) -> int {
    flat.filter(|x: Seq<char>| x == r).len() as int
}

/// `a` ranks strictly above `b`: mentioned more often, or as often and
/// earlier in code-point order. The order on names settles ties
/// deterministically.
pub open spec fn better_region(flat: Seq<Seq<char>>, a: Seq<char>, b: Seq<char>) -> bool {
    ||| count_in(flat, a) > count_in(flat, b)
    ||| (count_in(flat, a) == count_in(flat, b) && lex_lt(a, b))
}

/// The best-ranked candidate, scanning left to right and replacing the
/// held one only when a candidate ranks strictly above it.
pub open spec fn spec_pick_best(flat: Seq<Seq<char>>, cands: Seq<Seq<char>>) -> Option<Seq<char>>
    decreases cands.len(),
{
    if cands.len() == 0 {
        None
    } else {
        match spec_pick_best(flat, cands.drop_last()) {
            None => Some(cands.last()),
            Some(b) => if better_region(flat, cands.last(), b) {
                Some(cands.last())
            } else {
                Some(b)
            },
        }
    }
}

/// The deck's regions: the most frequent region mention, then the most
/// frequent among the remaining names; at most two.
pub open spec fn spec_regions(e: Seq<(CardView, i32)>) -> Seq<Seq<char>> {
    let flat = deck_region_seq(e);
    match spec_pick_best(flat, flat) {
        None => Seq::empty(),
        Some(r1) => match spec_pick_best(flat, flat.filter(|x: Seq<char>| x != r1)) {
            None => seq![r1],
            Some(r2) => seq![r1, r2],
        },
    }
}

/// How often `r` occurs in `flat`.
fn count_region(flat: &Vec<String>, r: &String) -> (n: usize)
    ensures
        n as int == count_in(flat.deep_view(), r@),
{
    let ghost fv = flat.deep_view();
    let mut n: usize = 0;
    let mut i: usize = 0;
    proof {
        assert(fv.take(0) =~= Seq::empty());
        assert(fv.take(0).filter(|x: Seq<char>| x == r@) =~= Seq::empty());
    }
    while i < flat.len()
        invariant
            i <= flat@.len(),
            fv == flat.deep_view(),
            fv.len() == flat@.len(),
            n as int == fv.take(i as int).filter(|x: Seq<char>| x == r@).len(),
            n <= i,
        decreases flat@.len() - i,
    {
        proof {
            assert(fv.take(i as int).push(fv[i as int]) =~= fv.take(i as int + 1));
            fv.take(i as int).lemma_filter_push(fv[i as int], |x: Seq<char>| x == r@);
            assert(fv.take(i as int).filter(|x: Seq<char>| x == r@).len() <= fv.take(
                i as int,
            ).len()) by {
                broadcast use vstd::seq_lib::group_filter_ensures;

            }
            if fv[i as int] == r@ {
                assert(fv.take(i as int + 1).filter(|x: Seq<char>| x == r@) == fv.take(
                    i as int,
                ).filter(|x: Seq<char>| x == r@).push(fv[i as int]));
            } else {
                assert(fv.take(i as int + 1).filter(|x: Seq<char>| x == r@) == fv.take(
                    i as int,
                ).filter(|x: Seq<char>| x == r@));
            }
        }
        proof {
            assert(fv[i as int] == flat@[i as int]@);
        }
        if flat[i] == *r {
            n = n + 1;
        }
        i = i + 1;
    }
    proof {
        assert(fv.take(fv.len() as int) =~= fv);
    }
    n
}

impl Deck {
    /// The deck's two regions: over all distinct card entries, the most
    /// mentioned region and the runner-up among the remaining names.
    /// Equally frequent regions are ordered by name, so the answer
    /// depends only on the composition.
    pub fn regions(&self) -> (r: Vec<String>)
        ensures
            r.deep_view() == spec_regions(self.spec_entries()),
    {
        let ghost ev = self.spec_entries();
        let mut flat: Vec<String> = Vec::new();
        let mut i: usize = 0;
        proof {
            assert(ev.take(0) =~= Seq::empty());
            assert(flat.deep_view() =~= deck_region_seq(ev.take(0)));
        }
        while i < self.cards.len()
            invariant
                i <= self.cards@.len(),
                ev == self.spec_entries(),
                flat.deep_view() == deck_region_seq(ev.take(i as int)),
            decreases self.cards@.len() - i,
        {
            proof {
                assert(ev.take(i as int + 1).drop_last() =~= ev.take(i as int));
                assert(ev.take(i as int + 1).last() == ev[i as int]);
            }
            match &self.cards[i].0.regions {
                Some(rs) => {
                    let mut j: usize = 0;
                    proof {
                        assert(rs.deep_view().take(0) =~= Seq::empty());
                        assert(flat.deep_view() + rs.deep_view().take(0) =~= flat.deep_view());
                    }
                    let ghost base = flat.deep_view();
                    while j < rs.len()
                        invariant
                            j <= rs@.len(),
                            rs.deep_view().len() == rs@.len(),
                            flat.deep_view() == base + rs.deep_view().take(j as int),
                        decreases rs@.len() - j,
                    {
                        proof {
                            assert(rs.deep_view()[j as int] == rs@[j as int]@);
                        }
                        let ghost f0 = flat.deep_view();
                        flat.push(rs[j].clone());
                        proof {
                            assert(flat.deep_view() =~= f0.push(rs.deep_view()[j as int]));
                            assert(f0.push(rs.deep_view()[j as int]) =~= base + rs.deep_view().take(
                                j as int + 1,
                            ));
                        }
                        j = j + 1;
                    }
                    proof {
                        assert(rs.deep_view().take(rs.deep_view().len() as int) =~= rs.deep_view());
                        assert(entry_regions(ev[i as int].0) == rs.deep_view());
                    }
                },
                None => {
                    proof {
                        assert(entry_regions(ev[i as int].0) =~= Seq::empty());
                        assert(flat.deep_view() + entry_regions(ev[i as int].0) =~= flat.deep_view());
                    }
                },
            }
            i = i + 1;
        }
        proof {
            assert(ev.take(ev.len() as int) =~= ev);
        }
        let ghost fv = flat.deep_view();

        // first pick: the best-ranked mention over all of them
        let mut best: Option<String> = None;
        let mut k: usize = 0;
        proof {
            assert(fv.take(0) =~= Seq::empty());
        }
        while k < flat.len()
            invariant
                k <= flat@.len(),
                fv == flat.deep_view(),
                fv.len() == flat@.len(),
                best.deep_view() == spec_pick_best(fv, fv.take(k as int)),
            decreases flat@.len() - k,
        {
            proof {
                assert(fv.take(k as int + 1).drop_last() =~= fv.take(k as int));
                assert(fv.take(k as int + 1).last() == fv[k as int]);
            }
            let cand_count = count_region(&flat, &flat[k]);
            let replace = match &best {
                None => true,
                Some(b) => {
                    let best_count = count_region(&flat, b);
                    cand_count > best_count || (cand_count == best_count && str_lt(
                        flat[k].as_str(),
                        b.as_str(),
                    ))
                },
            };
            if replace {
                best = Some(flat[k].clone());
            }
            k = k + 1;
        }
        proof {
            assert(fv.take(fv.len() as int) =~= fv);
        }

        let first = match best {
            None => {
                let r: Vec<String> = Vec::new();
                proof {
                    assert(r.deep_view() =~= spec_regions(ev));
                }
                return r;
            },
            Some(first) => first,
        };

        // second pick: the best-ranked mention among other names
        let ghost r1 = first@;
        let mut second: Option<String> = None;
        let mut k: usize = 0;
        proof {
            assert(fv.take(0) =~= Seq::empty());
            assert(fv.take(0).filter(|x: Seq<char>| x != r1) =~= Seq::empty());
        }
        while k < flat.len()
            invariant
                k <= flat@.len(),
                fv == flat.deep_view(),
                fv.len() == flat@.len(),
                first@ == r1,
                second.deep_view() == spec_pick_best(
                    fv,
                    fv.take(k as int).filter(|x: Seq<char>| x != r1),
                ),
            decreases flat@.len() - k,
        {
            proof {
                assert(fv.take(k as int).push(fv[k as int]) =~= fv.take(k as int + 1));
                fv.take(k as int).lemma_filter_push(fv[k as int], |x: Seq<char>| x != r1);
                let fk = fv.take(k as int).filter(|x: Seq<char>| x != r1);
                assert(fk.push(fv[k as int]).drop_last() =~= fk);
            }
            if !(flat[k] == first) {
                let cand_count = count_region(&flat, &flat[k]);
                let replace = match &second {
                    None => true,
                    Some(b) => {
                        let best_count = count_region(&flat, b);
                        cand_count > best_count || (cand_count == best_count && str_lt(
                            flat[k].as_str(),
                            b.as_str(),
                        ))
                    },
                };
                if replace {
                    second = Some(flat[k].clone());
                }
            }
            k = k + 1;
        }
        proof {
            assert(fv.take(fv.len() as int) =~= fv);
        }

        let mut out: Vec<String> = Vec::new();
        out.push(first);
        match second {
            Some(second) => {
                out.push(second);
                proof {
                    assert(out.deep_view() =~= spec_regions(ev));
                }
            },
            None => {
                proof {
                    assert(out.deep_view() =~= spec_regions(ev));
                }
            },
        }
        out
    }
}

impl PartialEq for Deck {
    /// Two decks are the same deck exactly when their deck codes match:
    /// identity by composition, blind to win/loss counters.
    fn eq(&self, other: &Self) -> (r: bool) {
        match (&self.deck_code, &other.deck_code) {
            (Some(a), Some(b)) => {
                proof {
                    assert(self.deck_code == Some(*a));
                    assert(other.deck_code == Some(*b));
                    assert(self.spec_deck_code() == Some(a@));
                    assert(other.spec_deck_code() == Some(b@));
                }
                *a == *b
            },
            (None, None) => true,
            _ => false,
        }
    }
}

impl vstd::std_specs::cmp::PartialEqSpecImpl for Deck {
    open spec fn obeys_eq_spec() -> bool {
        true
    }

    open spec fn eq_spec(&self, other: &Deck) -> bool {
        self.spec_deck_code() == other.spec_deck_code()
    }
}

impl Clone for Deck {
    /// A clone carries the same entries, code and record as the original.
    fn clone(&self) -> (res: Self)
        ensures
            res.spec_entries() == self.spec_entries(),
            res.spec_deck_code() == self.spec_deck_code(),
            res.spec_wins() == self.spec_wins(),
            res.spec_losses() == self.spec_losses(),
            self.wf() ==> res.wf(),
    {
        let mut cards: Vec<(Card, i32)> = Vec::new();
        let mut i: usize = 0;
        while i < self.cards.len()
            invariant
                i <= self.cards@.len(),
                deck_entries(cards@) == deck_entries(self.cards@).take(i as int),
            decreases self.cards@.len() - i,
        {
            let ghost c0 = deck_entries(cards@);
            let entry = (self.cards[i].0.clone(), self.cards[i].1);
            cards.push(entry);
            proof {
                assert(deck_entries(self.cards@)[i as int] == (
                    self.cards@[i as int].0@,
                    self.cards@[i as int].1,
                ));
                assert(deck_entries(cards@) =~= c0.push(
                    (self.cards@[i as int].0@, self.cards@[i as int].1),
                ));
                assert(deck_entries(cards@) =~= deck_entries(self.cards@).take(i as int + 1));
            }
            i = i + 1;
        }
        proof {
            assert(deck_entries(self.cards@).take(self.cards@.len() as int) =~= deck_entries(
                self.cards@,
            ));
        }
        let deck_code = self.deck_code.clone();
        proof {
            assert(deck_code.deep_view() == self.deck_code.deep_view());
        }
        Deck { cards, deck_code, wins: self.wins, losses: self.losses }
    }
}

/// The composition law: the deck code, and with it deck equality, is
/// determined by the (card code, count) composition alone. Two
/// well-formed decks with one composition carry one deck code — whether
/// the encoder accepted it or not — and therefore compare equal, whatever
/// their win/loss records.
/// Any entry carrying `code` carries the count the first-match search
/// reads: the codes are distinct, so there is only one such entry.
proof fn lemma_entry_count_at(e: Seq<(CardView, i32)>, code: Seq<char>, i: int)
    requires
        wf_entries(e),
        0 <= i < e.len(),
        e[i].0.card_code == code,
    ensures
        entry_count(e, code) == e[i].1 as int,
    decreases i,
{
    if i > 0 {
        assert(e[0].0.card_code != code) by {
            if e[0].0.card_code == code {
                lemma_lex_irrefl(code);
            }
        }
        lemma_wf_drop(e);
        assert(e.drop_first()[i - 1] == e[i]);
        lemma_entry_count_at(e.drop_first(), code, i - 1);
    }
}

/// With well-formed entries, the composition map is exactly the entry
/// list read back: its keys are the codes present, its values their
/// counts.
pub proof fn lemma_entries_map_characterization(e: Seq<(CardView, i32)>)
    requires
        wf_entries(e),
    ensures
        forall|code: Seq<char>|
            #[trigger] entries_map(e).dom().contains(code) <==> has_entry(e, code),
        forall|code: Seq<char>|
            has_entry(e, code) ==> #[trigger] entries_map(e)[code] == entry_count(e, code),
{
    assert forall|code: Seq<char>|
        #[trigger] entries_map(e).dom().contains(code) <==> has_entry(e, code) by {
        if has_entry(e, code) {
            let i = choose|i: int| 0 <= i < e.len() && e[i].0.card_code == code;
            assert(entries_pairs(e)[i].0 == code);
        }
        if entries_map(e).dom().contains(code) {
            let i = choose|i: int|
                0 <= i < entries_pairs(e).len() && entries_pairs(e)[i].0 == code;
            assert(e[i].0.card_code == code);
        }
    }
    assert forall|code: Seq<char>|
        has_entry(e, code) implies #[trigger] entries_map(e)[code] == entry_count(e, code) by {
        let i = choose|i: int| 0 <= i < e.len() && e[i].0.card_code == code;
        assert(entries_pairs(e)[i].0 == code);
        let j = choose|j: int|
            0 <= j < entries_pairs(e).len() && entries_pairs(e)[j].0 == code;
        assert(e[j].0.card_code == code);
        lemma_entry_count_at(e, code, j);
    }
}

/// The composition law carried through construction: two decks built
/// from card lists in which every code occurs equally often carry one
/// deck code, whatever order the cards came in and whatever the decks'
/// records say.
pub proof fn lemma_same_composition_same_code(
    d1: &Deck,
    d2: &Deck,
    c1: Seq<CardView>,
    c2: Seq<CardView>,
)
    requires
        d1.wf(),
        d2.wf(),
        d1.spec_entries() == spec_group(c1),
        d2.spec_entries() == spec_group(c2),
        c1.len() <= i32::MAX,
        c2.len() <= i32::MAX,
        forall|code: Seq<char>| #[trigger] count_code(c1, code) == count_code(c2, code),
    ensures
        d1.spec_deck_code() == d2.spec_deck_code(),
{
    let e1 = d1.spec_entries();
    let e2 = d2.spec_entries();
    assert forall|code: Seq<char>| true implies {
        &&& entry_count(e1, code) == entry_count(e2, code)
        &&& (has_entry(e1, code) <==> has_entry(e2, code))
    } by {
        lemma_grouping_counts(c1, code);
        lemma_grouping_counts(c2, code);
        assert(count_code(c1, code) == count_code(c2, code));
    }
    lemma_grouping_counts(c1, Seq::empty());
    lemma_grouping_counts(c2, Seq::empty());
    lemma_entries_map_characterization(e1);
    lemma_entries_map_characterization(e2);
    assert(entries_map(e1) =~= entries_map(e2));
    lemma_deck_code_composition(d1, d2);
}

pub proof fn lemma_deck_code_composition(d1: &Deck, d2: &Deck)
    requires
        d1.wf(),
        d2.wf(),
        entries_map(d1.spec_entries()) == entries_map(d2.spec_entries()),
    ensures
        d1.spec_deck_code() == d2.spec_deck_code(),
        vstd::std_specs::cmp::PartialEqSpec::eq_spec(d1, d2),
{
    let e1 = d1.spec_entries();
    let e2 = d2.spec_entries();
    if all_codes_ascii(e1) {
        lemma_ascii_follows_map(e1, e2);
    } else if all_codes_ascii(e2) {
        lemma_ascii_follows_map(e2, e1);
    }
}

/// Whether every code is ASCII is visible in the composition map's keys,
/// so equal maps agree on it.
proof fn lemma_ascii_follows_map(e1: Seq<(CardView, i32)>, e2: Seq<(CardView, i32)>)
    requires
        entries_map(e1) == entries_map(e2),
        all_codes_ascii(e1),
    ensures
        all_codes_ascii(e2),
{
    assert forall|i: int|
        0 <= i < e2.len() implies vstd::utf8::is_ascii_chars(
        (#[trigger] e2[i]).0.card_code,
    ) by {
        let code = e2[i].0.card_code;
        assert(entries_pairs(e2)[i].0 == code);
        assert(entries_map(e2).dom().contains(code));
        assert(entries_map(e1).dom().contains(code));
        let j = choose|j: int|
            0 <= j < entries_pairs(e1).len() && entries_pairs(e1)[j].0 == code;
        assert(e1[j].0.card_code == code);
    }
}

} // verus!
