//! The mathematical meaning of a template parse.
//!
//! A template is read left to right. Any character other than `{` is copied
//! (so a `}` outside a placeholder, and the escape `}}`, stay as they are),
//! `{{` is copied as an escape, and `{` otherwise opens a placeholder that runs
//! to the first `}`. Its content splits at the first `:` into a name and an
//! optional trait annotation. A placeholder with no closing `}` ends the
//! output: the rest of the template is dropped.
use vstd::prelude::*;
use crate::text::{decimal, digits_only};

verus! {

/// A field reference: its normalized key and its trait annotation, if any.
pub type FieldRef = (Seq<char>, Option<Seq<char>>);

/// Index of the first `c` in `s`, or `s.len()` when there is none.
pub open spec fn find(s: Seq<char>, c: char) -> nat
    decreases s.len(),
{
    if s.len() == 0 {
        0
    } else if s[0] == c {
        0
    } else {
        1 + find(s.skip(1), c)
    }
}

/// The prefix that marks a synthetic (positional) key.
pub open spec fn prefix() -> Seq<char> {
    seq!['_', '_']
}

/// The key under which a placeholder named `name` is tracked, when `counter`
/// implicit placeholders came before it.
pub open spec fn key_of(name: Seq<char>, counter: nat) -> Seq<char> {
    if name.len() == 0 {
        prefix() + decimal(counter)
    } else if digits_only(name) {
        prefix() + name
    } else {
        name
    }
}

/// The implicit-index counter after a placeholder named `name`.
pub open spec fn next_counter(name: Seq<char>, counter: nat) -> nat {
    if name.len() == 0 { counter + 1 } else { counter }
}

/// The text that follows the key inside a rewritten placeholder.
pub open spec fn annotation_text(annotation: Option<Seq<char>>) -> Seq<char> {
    match annotation {
        Some(t) => seq![':'] + t,
        None => Seq::empty(),
    }
}

/// Rewritten text and field references, in order, of the template `s`, read
/// with `counter` implicit placeholders already seen.
#[verifier::opaque]
pub open spec fn scan(s: Seq<char>, counter: nat) -> (Seq<char>, Seq<FieldRef>)
    decreases s.len(),
{
    if s.len() == 0 {
        (Seq::empty(), Seq::empty())
    } else if s[0] != '{' {
        let r = scan(s.skip(1), counter);
        (seq![s[0]] + r.0, r.1)
    } else if s.len() >= 2 && s[1] == '{' {
        let r = scan(s.skip(2), counter);
        (seq!['{', '{'] + r.0, r.1)
    } else {
        let body = s.skip(1);
        let close = find(body, '}');
        if close >= body.len() {
            (Seq::empty(), Seq::empty())
        } else {
            let content = body.take(close as int);
            let colon = find(content, ':');
            let name = content.take(colon as int);
            let annotation = if colon < content.len() {
                Some(content.skip(colon + 1 as int))
            } else {
                None
            };
            let key = key_of(name, counter);
            let r = scan(body.skip(close + 1 as int), next_counter(name, counter));
            (
                seq!['{'] + key + annotation_text(annotation) + seq!['}'] + r.0,
                seq![(key, annotation)] + r.1,
            )
        }
    }
}

/// The placeholders of `s` as written: each one's name (possibly empty) and
/// its trait annotation, in order. Escapes are skipped, and an unterminated
/// placeholder ends the sequence.
pub open spec fn placeholders(s: Seq<char>) -> Seq<FieldRef>
    decreases s.len(),
{
    if s.len() == 0 {
        Seq::empty()
    } else if s[0] != '{' {
        placeholders(s.skip(1))
    } else if s.len() >= 2 && s[1] == '{' {
        placeholders(s.skip(2))
    } else {
        let body = s.skip(1);
        let close = find(body, '}');
        if close >= body.len() {
            Seq::empty()
        } else {
            let content = body.take(close as int);
            let colon = find(content, ':');
            let annotation = if colon < content.len() {
                Some(content.skip(colon + 1 as int))
            } else {
                None
            };
            seq![(content.take(colon as int), annotation)] + placeholders(body.skip(close + 1 as int))
        }
    }
}

/// How many of `refs` have an empty name, that is, are implicit.
pub open spec fn implicit_count(refs: Seq<FieldRef>) -> nat
    decreases refs.len(),
{
    if refs.len() == 0 {
        0
    } else {
        (if refs[0].0.len() == 0 { 1nat } else { 0nat }) + implicit_count(refs.skip(1))
    }
}

/// The catalogue of a sequence of references: each key mapped to the
/// annotation of its last occurrence.
pub open spec fn catalogue_of(refs: Seq<FieldRef>) -> Map<Seq<char>, Option<Seq<char>>>
    decreases refs.len(),
{
    if refs.len() == 0 {
        Map::empty()
    } else {
        catalogue_of(refs.drop_last()).insert(refs.last().0, refs.last().1)
    }
}

/// The rewritten form of template `t`.
pub open spec fn rewritten(t: Seq<char>) -> Seq<char> {
    scan(t, 0).0
}

/// The field references of template `t`, one per placeholder, in order.
pub open spec fn references(t: Seq<char>) -> Seq<FieldRef> {
    scan(t, 0).1
}

/// The field catalogue of template `t`.
pub open spec fn catalogue(t: Seq<char>) -> Map<Seq<char>, Option<Seq<char>>> {
    catalogue_of(references(t))
}

pub proof fn lemma_find_bounds(s: Seq<char>, c: char)
    ensures
        find(s, c) <= s.len(),
        forall|j: int| 0 <= j < find(s, c) ==> s[j] != c,
        find(s, c) < s.len() ==> s[find(s, c) as int] == c,
    decreases s.len(),
{
    if s.len() > 0 && s[0] != c {
        lemma_find_bounds(s.skip(1), c);
        assert forall|j: int| 0 <= j < find(s, c) implies s[j] != c by {
            if j > 0 {
                assert(s[j] == s.skip(1)[j - 1]);
            }
        }
    }
}

/// `find` is characterized by its defining properties.
pub proof fn lemma_find_is(s: Seq<char>, c: char, k: int)
    requires
        0 <= k <= s.len(),
        forall|j: int| 0 <= j < k ==> s[j] != c,
        k < s.len() ==> s[k] == c,
    ensures
        find(s, c) == k,
    decreases s.len(),
{
    if s.len() > 0 && s[0] != c {
        assert forall|j: int| 0 <= j < k - 1 implies s.skip(1)[j] != c by {
            assert(s.skip(1)[j] == s[j + 1]);
        }
        lemma_find_is(s.skip(1), c, k - 1);
    }
}

pub proof fn lemma_scan_empty(s: Seq<char>, counter: nat)
    requires
        s.len() == 0,
    ensures
        scan(s, counter) == (Seq::<char>::empty(), Seq::<FieldRef>::empty()),
{
    reveal(scan);
}

/// A character other than `{` is copied.
pub proof fn lemma_scan_literal(s: Seq<char>, counter: nat)
    requires
        s.len() > 0,
        s[0] != '{',
    ensures
        scan(s, counter) == (seq![s[0]] + scan(s.skip(1), counter).0, scan(s.skip(1), counter).1),
{
    reveal(scan);
}

/// `{{` is copied and references nothing.
pub proof fn lemma_scan_escape(s: Seq<char>, counter: nat)
    requires
        s.len() >= 2,
        s[0] == '{',
        s[1] == '{',
    ensures
        scan(s, counter) == (seq!['{', '{'] + scan(s.skip(2), counter).0, scan(s.skip(2), counter).1),
{
    reveal(scan);
}

/// A placeholder with no closing `}` ends the output.
pub proof fn lemma_scan_unterminated(s: Seq<char>, counter: nat)
    requires
        s.len() > 0,
        s[0] == '{',
        s.len() >= 2 ==> s[1] != '{',
        forall|x: int| 1 <= x < s.len() ==> s[x] != '}',
    ensures
        scan(s, counter) == (Seq::<char>::empty(), Seq::<FieldRef>::empty()),
{
    reveal(scan);
    let body = s.skip(1);
    assert forall|x: int| 0 <= x < body.len() implies body[x] != '}' by {
        assert(body[x] == s[x + 1]);
    }
    lemma_find_is(body, '}', body.len() as int);
}

/// A placeholder `{name}` or `{name:annotation}` whose first `}` is at
/// `close` and whose first `:`, if before `close`, is at `colon`.
pub proof fn lemma_scan_placeholder(s: Seq<char>, counter: nat, colon: int, close: int)
    requires
        1 <= colon <= close < s.len(),
        s[0] == '{',
        s[1] != '{',
        forall|x: int| 1 <= x < close ==> s[x] != '}',
        s[close] == '}',
        forall|x: int| 1 <= x < colon ==> s[x] != ':',
        colon < close ==> s[colon] == ':',
    ensures
        ({
            let name = s.subrange(1, colon);
            let annotation = if colon < close {
                Some(s.subrange(colon + 1, close))
            } else {
                None
            };
            let key = key_of(name, counter);
            let r = scan(s.skip(close + 1), next_counter(name, counter));
            scan(s, counter) == (
                seq!['{'] + key + annotation_text(annotation) + seq!['}'] + r.0,
                seq![(key, annotation)] + r.1,
            )
        }),
{
    reveal(scan);
    let body = s.skip(1);
    assert forall|x: int| 0 <= x < close - 1 implies body[x] != '}' by {
        assert(body[x] == s[x + 1]);
    }
    lemma_find_is(body, '}', close - 1);
    let content = body.take(close - 1);
    assert(content =~= s.subrange(1, close));
    assert forall|x: int| 0 <= x < colon - 1 implies content[x] != ':' by {
        assert(content[x] == s[x + 1]);
    }
    lemma_find_is(content, ':', colon - 1);
    assert(content.take(colon - 1) =~= s.subrange(1, colon));
    if colon < close {
        assert(content.skip(colon) =~= s.subrange(colon + 1, close));
    }
    assert(body.skip(close) =~= s.skip(close + 1));
}

} // verus!
