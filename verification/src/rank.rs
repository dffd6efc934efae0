//! Ranks order notes as the user arranged them. A rank is the text of a
//! LexoRank (`bucket|rank`, such as `0|a`); the `lexorank` crate computes new
//! ranks, and notes are ordered by comparing rank texts character by
//! character. A note without a rank comes before every note with one.
use vstd::prelude::*;

use crate::entities::opt_text;

verus! {

#[verifier::external_type_specification]
#[verifier::external_body]
pub struct ExLexoRankParseError(lexorank::error::ParseError);

/// `a` comes strictly before `b` in lexicographic order of characters.
pub open spec fn text_lt(a: Seq<char>, b: Seq<char>) -> bool
    decreases a.len(),
{
    if a.len() == 0 {
        b.len() > 0
    } else if b.len() == 0 {
        false
    } else if a[0] != b[0] {
        (a[0] as int) < (b[0] as int)
    } else {
        text_lt(a.drop_first(), b.drop_first())
    }
}

/// Rank `a` comes strictly before rank `b`; a missing rank comes first.
pub open spec fn rank_lt(a: Option<Seq<char>>, b: Option<Seq<char>>) -> bool {
    match (a, b) {
        (None, Some(_)) => true,
        (Some(x), Some(y)) => text_lt(x, y),
        _ => false,
    }
}

/// No text comes before itself.
pub proof fn lemma_text_lt_irreflexive(a: Seq<char>)
    ensures
        !text_lt(a, a),
    decreases a.len(),
{
    if a.len() > 0 {
        lemma_text_lt_irreflexive(a.drop_first());
    }
}

/// The order of texts is transitive.
pub proof fn lemma_text_lt_transitive(a: Seq<char>, b: Seq<char>, c: Seq<char>)
    requires
        text_lt(a, b),
        text_lt(b, c),
    ensures
        text_lt(a, c),
    decreases a.len(),
{
    if a.len() > 0 && b.len() > 0 && c.len() > 0 && a[0] == b[0] && b[0] == c[0] {
        lemma_text_lt_transitive(a.drop_first(), b.drop_first(), c.drop_first());
    }
}

/// Of two different texts, one comes before the other.
pub proof fn lemma_text_lt_total(a: Seq<char>, b: Seq<char>)
    requires
        a != b,
    ensures
        text_lt(a, b) || text_lt(b, a),
    decreases a.len(),
{
    if a.len() == 0 {
        if b.len() == 0 {
            assert(a =~= b);
        }
    } else if b.len() == 0 {
    } else if a[0] == b[0] {
        if a.drop_first() == b.drop_first() {
            assert(a =~= seq![a[0]] + a.drop_first());
            assert(b =~= seq![b[0]] + b.drop_first());
        }
        lemma_text_lt_total(a.drop_first(), b.drop_first());
    }
}

/// The rank part of a rank text: what follows the bucket digit and the `|`.
pub open spec fn rank_part(t: Seq<char>) -> Seq<char> {
    t.subrange(2, t.len() as int)
}

/// A rank text that `LexoRank::from_string` reads: a bucket digit from `0`
/// to `2`, a `|`, and a rank part.
pub open spec fn rank_text_ok(t: Seq<char>) -> bool {
    &&& t.len() >= 3
    &&& '0' <= t[0] <= '2'
    &&& t[1] == '|'
    &&& lexorank_rank_part(rank_part(t))
}

/// Rank texts of the same bucket are in the order of their rank parts.
pub proof fn lemma_same_bucket_order(a: Seq<char>, b: Seq<char>)
    requires
        a.len() >= 2,
        b.len() >= 2,
        a[0] == b[0],
        a[1] == b[1],
    ensures
        text_lt(a, b) == text_lt(rank_part(a), rank_part(b)),
{
    assert(a.drop_first().drop_first() =~= rank_part(a));
    assert(b.drop_first().drop_first() =~= rank_part(b));
    assert(a.drop_first()[0] == b.drop_first()[0]);
    assert(text_lt(a, b) == text_lt(a.drop_first(), b.drop_first()));
    assert(text_lt(a.drop_first(), b.drop_first()) == text_lt(
        a.drop_first().drop_first(),
        b.drop_first().drop_first(),
    ));
}

/// A rank text the `lexorank` crate accepts as a rank part: digits and
/// lower-case letters, not empty and not ending in `0`.
pub open spec fn lexorank_rank_part(s: Seq<char>) -> bool {
    &&& s.len() >= 1
    &&& forall|i: int|
        0 <= i < s.len() ==> ('0' <= #[trigger] s[i] <= '9' || 'a' <= s[i] <= 'z')
    &&& s.last() != '0'
}

/// What `LexoRank::next` gives for the rank written as `s`, or `None` where
/// `LexoRank::from_string` refuses `s`.
pub uninterp spec fn lexorank_next_text(s: Seq<char>) -> Option<Seq<char>>;

/// What `LexoRank::prev` gives for the rank written as `s`, or `None` where
/// `LexoRank::from_string` refuses `s`.
pub uninterp spec fn lexorank_prev_text(s: Seq<char>) -> Option<Seq<char>>;

/// What `LexoRank::between` gives for the ranks written as `a` and `b` (itself
/// an option), or `None` where `LexoRank::from_string` refuses one of them.
pub uninterp spec fn lexorank_between_text(a: Seq<char>, b: Seq<char>) -> Option<
    Option<Seq<char>>,
>;

/// Builds a rank with `lexorank::Bucket::new`, `lexorank::Rank::new` and
/// `LexoRank::new`, and writes it with its `Display`. The contract states the
/// crate's checks (a bucket of at most 2; a rank part of digits and lower-case
/// letters that does not end in `0`) and its `bucket|rank` format.
#[verifier::external_body]
pub(crate) fn lexorank_new(bucket: u8, rank: &str) -> (r: Result<String, lexorank::error::ParseError>)
    ensures
        r is Ok <==> (bucket <= 2 && lexorank_rank_part(rank@)),
        r is Ok ==> r->Ok_0@ == seq![(48 + bucket) as char, '|'] + rank@,
{
    let b = match lexorank::Bucket::new(bucket) {
        Ok(b) => b,
        Err(e) => return Err(e),
    };
    match lexorank::Rank::new(rank) {
        Ok(rk) => Ok(lexorank::LexoRank::new(b, rk).to_string()),
        Err(e) => Err(e),
    }
}

/// Reads a rank with `LexoRank::from_string`, takes `LexoRank::next` and writes
/// it. `from_string` panics on a text without `|`, which `requires` leaves
/// out. The result is the one the name `lexorank_next_text` gives; like every
/// rank the crate writes, it holds a `|`.
#[verifier::external_body]
pub(crate) fn lexorank_next(s: &str) -> (r: Result<String, lexorank::error::ParseError>)
    requires
        s@.contains('|'),
    ensures
        match r {
            Ok(t) => lexorank_next_text(s@) == Some(t@) && t@.contains('|'),
            Err(_) => lexorank_next_text(s@) is None,
        },
        rank_text_ok(s@) ==> r is Ok && rank_text_ok(r->Ok_0@) && r->Ok_0@[0] == s@[0]
            && text_lt(rank_part(s@), rank_part(r->Ok_0@)),
{
    match lexorank::LexoRank::from_string(s) {
        Ok(l) => Ok(l.next().to_string()),
        Err(e) => Err(e),
    }
}

/// Reads a rank with `LexoRank::from_string`, takes `LexoRank::prev` and writes
/// it. `from_string` panics on a text without `|`, which `requires` leaves
/// out. The result is the one the name `lexorank_prev_text` gives; like every
/// rank the crate writes, it holds a `|`.
#[verifier::external_body]
pub(crate) fn lexorank_prev(s: &str) -> (r: Result<String, lexorank::error::ParseError>)
    requires
        s@.contains('|'),
    ensures
        match r {
            Ok(t) => lexorank_prev_text(s@) == Some(t@) && t@.contains('|'),
            Err(_) => lexorank_prev_text(s@) is None,
        },
        rank_text_ok(s@) ==> r is Ok && rank_text_ok(r->Ok_0@) && r->Ok_0@[0] == s@[0]
            && text_lt(rank_part(r->Ok_0@), rank_part(s@)),
{
    match lexorank::LexoRank::from_string(s) {
        Ok(l) => Ok(l.prev().to_string()),
        Err(e) => Err(e),
    }
}

/// Reads two ranks with `LexoRank::from_string` and takes `LexoRank::between`
/// of them, written as text where there is one. `from_string` panics on a
/// text without `|`, which `requires` leaves out. The result is the one the
/// name `lexorank_between_text` gives; a rank the crate writes holds a `|`.
#[verifier::external_body]
pub(crate) fn lexorank_between(a: &str, b: &str) -> (r: Result<
    Option<String>,
    lexorank::error::ParseError,
>)
    requires
        a@.contains('|'),
        b@.contains('|'),
    ensures
        match r {
            Ok(Some(t)) => lexorank_between_text(a@, b@) == Some(Some(t@)) && t@.contains('|'),
            Ok(None) => lexorank_between_text(a@, b@) == Some(None::<Seq<char>>),
            Err(_) => lexorank_between_text(a@, b@) is None,
        },
        rank_text_ok(a@) && rank_text_ok(b@) ==> r is Ok && (r->Ok_0 is None <==> rank_part(a@)
            == rank_part(b@)),
        rank_text_ok(a@) && rank_text_ok(b@) && r is Ok && r->Ok_0 is Some ==> ({
            let m = r->Ok_0->0@;
            &&& rank_text_ok(m)
            &&& m[0] == a@[0]
            &&& (text_lt(rank_part(a@), rank_part(m)) && text_lt(rank_part(m), rank_part(b@)))
                || (text_lt(rank_part(b@), rank_part(m)) && text_lt(rank_part(m), rank_part(a@)))
        }),
{
    let la = match lexorank::LexoRank::from_string(a) {
        Ok(l) => l,
        Err(e) => return Err(e),
    };
    match lexorank::LexoRank::from_string(b) {
        Ok(lb) => match la.between(&lb) {
            Some(x) => Ok(Some(x.to_string())),
            None => Ok(None),
        },
        Err(e) => Err(e),
    }
}

/// Builds a `lexorank::error::ParseError` with the given message (the crate's
/// `From<&str>`). Nothing is claimed of the value.
#[verifier::external_body]
pub(crate) fn rank_parse_error(msg: &str) -> lexorank::error::ParseError {
    lexorank::error::ParseError::from(msg)
}

/// The characters of a text.
pub fn chars_of(s: &String) -> (v: Vec<char>)
    ensures
        v@ == s@,
{
    let mut v: Vec<char> = Vec::new();
    for c in it: s.as_str().chars()
        invariant
            v@ == it.seq().subrange(0, it.index() as int),
            it.seq() == s@,
    {
        v.push(c);
    }
    v
}

/// Whether the text holds a `|`.
pub fn has_bar(s: &String) -> (r: bool)
    ensures
        r == s@.contains('|'),
{
    let v = chars_of(s);
    let mut i: usize = 0;
    while i < v.len()
        invariant
            i <= v.len(),
            v@ == s@,
            forall|j: int| 0 <= j < i ==> v@[j] != '|',
        decreases v.len() - i,
    {
        if v[i] == '|' {
            return true;
        }
        i = i + 1;
    }
    false
}

proof fn lemma_text_lt_skip(a: Seq<char>, b: Seq<char>, i: int)
    requires
        0 <= i < a.len(),
        i < b.len(),
        a[i] == b[i],
    ensures
        text_lt(a.skip(i), b.skip(i)) == text_lt(a.skip(i + 1), b.skip(i + 1)),
{
    assert(a.skip(i).drop_first() =~= a.skip(i + 1));
    assert(b.skip(i).drop_first() =~= b.skip(i + 1));
}

/// Whether text `a` comes strictly before text `b`.
pub fn text_less(a: &Vec<char>, b: &Vec<char>) -> (r: bool)
    ensures
        r == text_lt(a@, b@),
{
    let mut i: usize = 0;
    assert(a@.skip(0) =~= a@);
    assert(b@.skip(0) =~= b@);
    while i < a.len() && i < b.len()
        invariant
            i <= a.len(),
            i <= b.len(),
            text_lt(a@, b@) == text_lt(a@.skip(i as int), b@.skip(i as int)),
        decreases a.len() - i,
    {
        if a[i] != b[i] {
            assert(a@.skip(i as int)[0] == a@[i as int]);
            assert(b@.skip(i as int)[0] == b@[i as int]);
            return a[i] < b[i];
        }
        proof {
            lemma_text_lt_skip(a@, b@, i as int);
        }
        i = i + 1;
    }
    i < b.len()
}

/// Whether rank `a` comes strictly before rank `b`.
pub fn rank_less(a: &Option<String>, b: &Option<String>) -> (r: bool)
    ensures
        r == rank_lt(opt_text(*a), opt_text(*b)),
{
    match (a, b) {
        (None, Some(_)) => true,
        (Some(x), Some(y)) => {
            let xs = chars_of(x);
            let ys = chars_of(y);
            text_less(&xs, &ys)
        },
        _ => false,
    }
}

} // verus!
