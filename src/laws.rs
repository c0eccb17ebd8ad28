//! Properties that hold of every template.
use vstd::prelude::*;
use crate::model::{
    annotation_text, catalogue, catalogue_of, find, key_of, lemma_find_bounds, lemma_scan_empty,
    lemma_scan_escape, lemma_scan_literal, lemma_scan_placeholder, lemma_scan_unterminated,
    implicit_count, next_counter, placeholders, prefix, references, rewritten, scan, FieldRef,
};
use crate::text::{decimal, digit_char, digits_only, is_digit};

verus! {

proof fn lemma_decimal_digits(n: nat)
    ensures
        decimal(n).len() > 0,
        forall|i: int| 0 <= i < decimal(n).len() ==> is_digit(#[trigger] decimal(n)[i]),
    decreases n,
{
    if n >= 10 {
        lemma_decimal_digits(n / 10);
        assert(is_digit(digit_char(n % 10)));
    } else {
        assert(is_digit(digit_char(n)));
    }
}

/// A key that a placeholder reproduces unchanged: non-empty, not starting
/// with `{`, free of `}` and `:`, and not a bare index.
spec fn stable_key(k: Seq<char>) -> bool {
    &&& k.len() > 0
    &&& k[0] != '{'
    &&& !digits_only(k)
    &&& forall|i: int| 0 <= i < k.len() ==> #[trigger] k[i] != '}' && k[i] != ':'
}

proof fn lemma_key_stable(name: Seq<char>, counter: nat)
    requires
        name.len() > 0 ==> name[0] != '{',
        forall|i: int| 0 <= i < name.len() ==> #[trigger] name[i] != '}' && name[i] != ':',
    ensures
        stable_key(key_of(name, counter)),
        key_of(key_of(name, counter), counter) == key_of(name, counter),
{
    let key = key_of(name, counter);
    if name.len() == 0 || digits_only(name) {
        let tail = if name.len() == 0 { decimal(counter) } else { name };
        lemma_decimal_digits(counter);
        assert(key == prefix() + tail);
        assert(forall|i: int| 0 <= i < tail.len() ==> is_digit(#[trigger] tail[i]));
        assert forall|i: int| 0 <= i < key.len() implies #[trigger] key[i] != '}' && key[i] != ':' by {
            if i >= 2 {
                assert(key[i] == tail[i - 2]);
                assert(is_digit(tail[i - 2]));
            }
        }
        assert(!is_digit(key[0]));
    }
}

/// Both results of scanning the rewritten text equal those of the text.
proof fn lemma_scan_rewritten(s: Seq<char>, c: nat, d: nat)
    ensures
        scan(scan(s, c).0, d) == scan(s, c),
    decreases s.len(),
{
    let out = scan(s, c).0;
    if s.len() == 0 {
        lemma_scan_empty(s, c);
        lemma_scan_empty(out, d);
    } else if s[0] != '{' {
        lemma_scan_literal(s, c);
        lemma_scan_rewritten(s.skip(1), c, d);
        lemma_scan_literal(out, d);
        assert(out.skip(1) =~= scan(s.skip(1), c).0);
    } else if s.len() >= 2 && s[1] == '{' {
        lemma_scan_escape(s, c);
        lemma_scan_rewritten(s.skip(2), c, d);
        lemma_scan_escape(out, d);
        assert(out.skip(2) =~= scan(s.skip(2), c).0);
    } else {
        let body = s.skip(1);
        lemma_find_bounds(body, '}');
        let close: int = find(body, '}') + 1int;
        if close >= s.len() {
            assert forall|x: int| 1 <= x < s.len() implies s[x] != '}' by {
                assert(s[x] == body[x - 1]);
            }
            lemma_scan_unterminated(s, c);
            lemma_scan_empty(out, d);
        } else {
            let content = s.subrange(1, close);
            lemma_find_bounds(content, ':');
            let colon: int = find(content, ':') + 1int;
            assert forall|x: int| 1 <= x < close implies s[x] != '}' by {
                assert(s[x] == body[x - 1]);
            }
            assert(s[close] == body[close - 1]);
            assert forall|x: int| 1 <= x < colon implies s[x] != ':' by {
                assert(s[x] == content[x - 1]);
            }
            if colon < close {
                assert(s[colon] == content[colon - 1]);
            }
            lemma_scan_placeholder(s, c, colon, close);
            let name = s.subrange(1, colon);
            let annotation = if colon < close {
                Some(s.subrange(colon + 1, close))
            } else {
                None
            };
            let key = key_of(name, c);
            let nc = next_counter(name, c);
            let rest = scan(s.skip(close + 1), nc);
            assert forall|i: int| 0 <= i < name.len() implies #[trigger] name[i] != '}' && name[i] != ':' by {
                assert(name[i] == s[i + 1]);
            }
            lemma_key_stable(name, c);
            lemma_key_stable(key, d);
            lemma_scan_rewritten(s.skip(close + 1), nc, d);
            let head = seq!['{'] + key + annotation_text(annotation) + seq!['}'];
            assert(out == head + rest.0);
            let colon2: int = 1int + key.len();
            let close2: int = head.len() - 1;
            assert(out[1] == key[0]);
            assert forall|x: int| 1 <= x < close2 implies out[x] != '}' by {
                if x < colon2 {
                    assert(out[x] == key[x - 1]);
                } else if x > colon2 {
                    assert(out[x] == s[colon + 1 + x - colon2 - 1]);
                }
            }
            assert forall|x: int| 1 <= x < colon2 implies out[x] != ':' by {
                assert(out[x] == key[x - 1]);
            }
            lemma_scan_placeholder(out, d, colon2, close2);
            assert(out.subrange(1, colon2) =~= key);
            if colon < close {
                assert(out.subrange(colon2 + 1, close2) =~= s.subrange(colon + 1, close));
            }
            assert(out.skip(close2 + 1) =~= rest.0);
        }
    }
}

proof fn lemma_scan_placeholders(s: Seq<char>, c: nat)
    ensures
        scan(s, c).1.len() == placeholders(s).len(),
        forall|i: int| 0 <= i < placeholders(s).len() ==> (#[trigger] scan(s, c).1[i]) == (
            key_of(placeholders(s)[i].0, c + implicit_count(placeholders(s).take(i))),
            placeholders(s)[i].1,
        ),
    decreases s.len(),
{
    let raw = placeholders(s);
    if s.len() == 0 {
        lemma_scan_empty(s, c);
    } else if s[0] != '{' {
        lemma_scan_literal(s, c);
        lemma_scan_placeholders(s.skip(1), c);
    } else if s.len() >= 2 && s[1] == '{' {
        lemma_scan_escape(s, c);
        lemma_scan_placeholders(s.skip(2), c);
    } else {
        let body = s.skip(1);
        lemma_find_bounds(body, '}');
        let close: int = find(body, '}') + 1int;
        if close >= s.len() {
            assert forall|x: int| 1 <= x < s.len() implies s[x] != '}' by {
                assert(s[x] == body[x - 1]);
            }
            lemma_scan_unterminated(s, c);
        } else {
            let content = s.subrange(1, close);
            assert(content =~= body.take(close - 1));
            lemma_find_bounds(content, ':');
            let colon: int = find(content, ':') + 1int;
            assert forall|x: int| 1 <= x < close implies s[x] != '}' by {
                assert(s[x] == body[x - 1]);
            }
            assert(s[close] == body[close - 1]);
            assert forall|x: int| 1 <= x < colon implies s[x] != ':' by {
                assert(s[x] == content[x - 1]);
            }
            if colon < close {
                assert(s[colon] == content[colon - 1]);
                assert(content.skip(colon) =~= s.subrange(colon + 1, close));
            }
            lemma_scan_placeholder(s, c, colon, close);
            let name = s.subrange(1, colon);
            assert(content.take(colon - 1) =~= name);
            assert(body.skip(close) =~= s.skip(close + 1));
            let rest_raw = placeholders(s.skip(close + 1));
            let nc = next_counter(name, c);
            lemma_scan_placeholders(s.skip(close + 1), nc);
            assert(raw == seq![raw[0]] + rest_raw);
            assert(raw[0].0 == name);
            assert forall|i: int| 0 <= i < raw.len() implies (#[trigger] scan(s, c).1[i]) == (
                key_of(raw[i].0, c + implicit_count(raw.take(i))),
                raw[i].1,
            ) by {
                if i == 0 {
                    assert(raw.take(0) =~= Seq::<FieldRef>::empty());
                } else {
                    assert(raw.take(i).skip(1) =~= rest_raw.take(i - 1));
                    assert(raw[i] == rest_raw[i - 1]);
                }
            }
        }
    }
}

/// Positional keys follow two independent numbering schemes. The key of
/// the `i`-th placeholder of `t` is its name as written, normalized with
/// the number of implicit (nameless) placeholders before it: so implicit
/// placeholders get `__0`, `__1`, ... in order, an all-digit name `N` gets
/// `__N` whatever came before, and any other name stays as it is.
pub proof fn law_positional_keys(t: Seq<char>, i: int)
    requires
        0 <= i < placeholders(t).len(),
    ensures
        references(t).len() == placeholders(t).len(),
        references(t)[i].0 == key_of(placeholders(t)[i].0, implicit_count(placeholders(t).take(i))),
        references(t)[i].1 == placeholders(t)[i].1,
{
    lemma_scan_placeholders(t, 0);
    assert(scan(t, 0).1[i] == (
        key_of(placeholders(t)[i].0, implicit_count(placeholders(t).take(i))),
        placeholders(t)[i].1,
    ));
}

proof fn lemma_catalogue_of(refs: Seq<FieldRef>)
    ensures
        forall|k: Seq<char>| #[trigger] catalogue_of(refs).contains_key(k)
            <==> exists|i: int| 0 <= i < refs.len() && (#[trigger] refs[i]).0 == k,
        forall|i: int| 0 <= i < refs.len()
            && (forall|j: int| i < j < refs.len() ==> (#[trigger] refs[j]).0 != refs[i].0)
            ==> catalogue_of(refs)[(#[trigger] refs[i]).0] == refs[i].1,
    decreases refs.len(),
{
    if refs.len() > 0 {
        let init = refs.drop_last();
        lemma_catalogue_of(init);
        assert(catalogue_of(refs) == catalogue_of(init).insert(refs.last().0, refs.last().1));
        assert forall|k: Seq<char>| #[trigger] catalogue_of(refs).contains_key(k)
            implies exists|i: int| 0 <= i < refs.len() && (#[trigger] refs[i]).0 == k by {
            if k != refs.last().0 {
                assert(catalogue_of(init).contains_key(k));
                let i = choose|i: int| 0 <= i < init.len() && (#[trigger] init[i]).0 == k;
                assert(refs[i] == init[i]);
            } else {
                assert(refs[refs.len() - 1].0 == k);
            }
        }
        assert forall|k: Seq<char>| (exists|i: int| 0 <= i < refs.len() && (#[trigger] refs[i]).0 == k)
            implies #[trigger] catalogue_of(refs).contains_key(k) by {
            let i = choose|i: int| 0 <= i < refs.len() && (#[trigger] refs[i]).0 == k;
            if i < refs.len() - 1 {
                assert(init[i] == refs[i]);
            }
        }
        assert forall|i: int| 0 <= i < refs.len()
            && (forall|j: int| i < j < refs.len() ==> (#[trigger] refs[j]).0 != refs[i].0)
            implies catalogue_of(refs)[(#[trigger] refs[i]).0] == refs[i].1 by {
            if i < refs.len() - 1 {
                assert(refs[refs.len() - 1].0 != refs[i].0);
                assert forall|j: int| i < j < init.len() implies (#[trigger] init[j]).0 != init[i].0 by {
                    assert(init[j] == refs[j]);
                }
                assert(init[i] == refs[i]);
            }
        }
    }
}

/// The catalogue of `t` holds exactly the keys that `t` references, each
/// with the annotation of its last reference: when a key recurs with
/// different annotations, the last one wins.
pub proof fn law_catalogue_keeps_last_annotation(t: Seq<char>)
    ensures
        forall|k: Seq<char>| #[trigger] catalogue(t).contains_key(k)
            <==> exists|i: int| 0 <= i < references(t).len() && (#[trigger] references(t)[i]).0 == k,
        forall|i: int| 0 <= i < references(t).len()
            && (forall|j: int| i < j < references(t).len()
                ==> (#[trigger] references(t)[j]).0 != references(t)[i].0)
            ==> catalogue(t)[(#[trigger] references(t)[i]).0] == references(t)[i].1,
{
    lemma_catalogue_of(references(t));
}

/// A template without `{` is its own rewritten form and references no field.
pub proof fn law_plain_text_unchanged(t: Seq<char>)
    requires
        forall|i: int| 0 <= i < t.len() ==> t[i] != '{',
    ensures
        rewritten(t) == t,
        catalogue(t) == Map::<Seq<char>, Option<Seq<char>>>::empty(),
    decreases t.len(),
{
    lemma_plain_scan(t, 0);
}

proof fn lemma_plain_scan(t: Seq<char>, c: nat)
    requires
        forall|i: int| 0 <= i < t.len() ==> t[i] != '{',
    ensures
        scan(t, c) == (t, Seq::<FieldRef>::empty()),
    decreases t.len(),
{
    if t.len() == 0 {
        lemma_scan_empty(t, c);
        assert(t =~= Seq::<char>::empty());
    } else {
        lemma_scan_literal(t, c);
        assert forall|i: int| 0 <= i < t.skip(1).len() implies t.skip(1)[i] != '{' by {
            assert(t.skip(1)[i] == t[i + 1]);
        }
        lemma_plain_scan(t.skip(1), c);
        assert(seq![t[0]] + t.skip(1) =~= t);
    }
}

/// Parsing a rewritten template gives it back unchanged, with the same
/// catalogue.
pub proof fn law_rewrite_idempotent(t: Seq<char>)
    ensures
        rewritten(rewritten(t)) == rewritten(t),
        catalogue(rewritten(t)) == catalogue(t),
{
    lemma_scan_rewritten(t, 0, 0);
}

} // verus!
