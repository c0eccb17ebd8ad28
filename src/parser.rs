//! The template parser: one left-to-right pass over the characters.
use vstd::prelude::*;
use crate::catalogue::{opt_view, Catalogue};
use crate::model::{
    annotation_text, catalogue, catalogue_of, key_of, lemma_scan_empty, lemma_scan_escape,
    lemma_scan_literal, lemma_scan_placeholder, lemma_scan_unterminated, next_counter, rewritten,
    scan, FieldRef,
};
use crate::text::{all_digits, chars_of, push_decimal, push_range, string_of};

verus! {

/// Parses `text` and returns its rewritten form and its field catalogue.
///
/// Positional placeholders (`{}`, `{:t}`, and `{N}` with `N` all digits) are
/// rewritten to synthetic keys `__0`, `__1`, ...; named ones keep their name.
/// An unterminated placeholder drops the rest of the text.
pub fn parse_internal(text: &str) -> (r: (String, Catalogue))
    ensures
        r.0@ == rewritten(text@),
        r.1.wf(),
        r.1@ == catalogue(text@),
{
    let chars = chars_of(text);
    let n = chars.len();
    let mut out: Vec<char> = Vec::new();
    let mut cat = Catalogue::new();
    let mut counter: usize = 0;
    let mut i: usize = 0;
    let ghost mut refs: Seq<FieldRef> = Seq::empty();
    assert(chars@.skip(0) =~= chars@);
    while i < n
        invariant
            n == chars@.len(),
            chars@ == text@,
            i <= n,
            counter <= i,
            out@ + scan(chars@.skip(i as int), counter as nat).0 == scan(chars@, 0).0,
            refs + scan(chars@.skip(i as int), counter as nat).1 == scan(chars@, 0).1,
            cat.wf(),
            cat@ == catalogue_of(refs),
        decreases n - i,
    {
        let ghost s = chars@.skip(i as int);
        let ghost c0 = counter as nat;
        let c = chars[i];
        if c != '{' {
            assert(s.skip(1) =~= chars@.skip(i + 1));
            proof { lemma_scan_literal(s, c0); }
            let ghost r = scan(s.skip(1), c0);
            let ghost out0 = out@;
            out.push(c);
            assert(out@ + r.0 =~= out0 + (seq![c] + r.0));
            i = i + 1;
        } else if i + 1 < n && chars[i + 1] == '{' {
            assert(s.skip(2) =~= chars@.skip(i + 2));
            assert(s[1] == chars@[i + 1]);
            proof { lemma_scan_escape(s, c0); }
            let ghost r = scan(s.skip(2), c0);
            let ghost out0 = out@;
            out.push('{');
            out.push('{');
            assert(out@ + r.0 =~= out0 + (seq!['{', '{'] + r.0));
            i = i + 2;
        } else {
            let mut j = i + 1;
            while j < n && chars[j] != '}'
                invariant
                    n == chars@.len(),
                    i < j <= n,
                    forall|x: int| i < x < j ==> chars@[x] != '}',
                decreases n - j,
            {
                j = j + 1;
            }
            if j == n {
                assert forall|x: int| 1 <= x < s.len() implies s[x] != '}' by {
                    assert(s[x] == chars@[i + x]);
                }
                proof {
                    lemma_scan_unterminated(s, c0);
                    lemma_scan_empty(chars@.skip(n as int), c0);
                }
                assert(out@ + Seq::<char>::empty() =~= out@);
                assert(refs + Seq::<FieldRef>::empty() =~= refs);
                i = n;
            } else {
                assert(s.skip(j - i + 1) =~= chars@.skip(j + 1));
                counter = rewrite_placeholder(&chars, i, j, counter, &mut out, &mut cat);
                let ghost fr = scan(s, c0).1[0];
                proof {
                    assert(refs.push(fr).drop_last() =~= refs);
                    assert(refs.push(fr) + scan(chars@.skip(j + 1), counter as nat).1
                        =~= refs + scan(s, c0).1);
                    refs = refs.push(fr);
                }
                i = j + 1;
            }
        }
    }
    proof { lemma_scan_empty(chars@.skip(n as int), counter as nat); }
    (string_of(&out), cat)
}

/// Rewrites the placeholder `chars[i..=j]`, which opens at `i` and first
/// closes at `j`, onto `out` and records its key in `cat`. Returns the
/// implicit-index counter after it.
fn rewrite_placeholder(
    chars: &Vec<char>,
    i: usize,
    j: usize,
    counter: usize,
    out: &mut Vec<char>,
    cat: &mut Catalogue,
) -> (nc: usize)
    requires
        i < j < chars@.len(),
        counter <= i,
        chars@[i as int] == '{',
        chars@[i + 1] != '{',
        forall|x: int| i < x < j ==> chars@[x] != '}',
        chars@[j as int] == '}',
        old(cat).wf(),
    ensures
        nc <= counter + 1,
        ({
            let s = scan(chars@.skip(i as int), counter as nat);
            let rest = scan(chars@.skip(j + 1), nc as nat);
            &&& final(out)@ + rest.0 == old(out)@ + s.0
            &&& s.1 == seq![s.1[0]] + rest.1
            &&& final(cat).wf()
            &&& final(cat)@ == old(cat)@.insert(s.1[0].0, s.1[0].1)
        }),
{
    let ghost s = chars@.skip(i as int);
    let ghost c0 = counter as nat;
    let mut counter = counter;
    let mut k = i + 1;
    while k < j && chars[k] != ':'
        invariant
            i < k <= j < chars@.len(),
            forall|x: int| i < x < k ==> chars@[x] != ':',
        decreases j - k,
    {
        k = k + 1;
    }
    let ghost name = chars@.subrange(i + 1, k as int);
    assert forall|x: int| 1 <= x < j - i implies s[x] != '}' by {
        assert(s[x] == chars@[i + x]);
    }
    assert forall|x: int| 1 <= x < k - i implies s[x] != ':' by {
        assert(s[x] == chars@[i + x]);
    }
    proof { lemma_scan_placeholder(s, c0, k - i, j - i as int); }
    assert(s.subrange(1, k - i) =~= name);
    assert(s.skip(j - i + 1) =~= chars@.skip(j + 1));
    let mut key: Vec<char> = Vec::new();
    if k == i + 1 {
        key.push('_');
        key.push('_');
        push_decimal(&mut key, counter);
        counter = counter + 1;
    } else if all_digits(chars, i + 1, k) {
        key.push('_');
        key.push('_');
        push_range(&mut key, chars, i + 1, k);
    } else {
        push_range(&mut key, chars, i + 1, k);
    }
    assert(key@ =~= key_of(name, c0));
    assert(counter == next_counter(name, c0));
    let ghost annotation = if k < j {
        Some(chars@.subrange(k + 1, j as int))
    } else {
        None::<Seq<char>>
    };
    let ghost out0 = out@;
    out.push('{');
    push_range(out, &key, 0, key.len());
    assert(key@.subrange(0, key@.len() as int) =~= key@);
    let traits = if k < j {
        out.push(':');
        push_range(out, chars, k + 1, j);
        let mut t: Vec<char> = Vec::new();
        push_range(&mut t, chars, k + 1, j);
        Some(string_of(&t))
    } else {
        None
    };
    assert(opt_view(traits) == annotation);
    out.push('}');
    let ghost head = seq!['{'] + key@ + annotation_text(annotation) + seq!['}'];
    assert(out@ =~= out0 + head);
    let ghost rest = scan(chars@.skip(j + 1), counter as nat);
    assert(k < j ==> s.subrange(k - i + 1, j - i as int) =~= chars@.subrange(k + 1, j as int));
    assert(scan(s, c0) == (head + rest.0, seq![(key@, annotation)] + rest.1));
    assert(out@ + rest.0 =~= out0 + (head + rest.0));
    cat.insert(string_of(&key), traits);
    counter
}

} // verus!
