//! The comma-separated `key=value` parameter list that follows the scheme
//! token in a `WWW-Authenticate` value.
//!
//! The model: the raw parameter bytes are split on commas into tokens; a
//! token with an `=` yields one `(key, value)` pair, key and value trimmed
//! of blanks, a leading double quote stripping one leading and one trailing
//! byte from the value; a token without an `=` yields nothing.  The pairs
//! are read as text only when every parameter byte renders as text.

use vstd::prelude::*;

use crate::value::{visible_ascii, visible_ascii_byte};

verus! {

/// A blank byte: space or horizontal tab.  These are the only whitespace
/// bytes that can occur in a header field value.
pub open spec fn is_blank_byte(b: u8) -> bool {
    b == 32 || b == 9
}

/// `b` occurs somewhere in `s`.
pub open spec fn contains_byte(s: Seq<u8>, b: u8) -> bool {
    exists|i: int| 0 <= i < s.len() && s[i] == b
}

/// The index of the first occurrence of `b` in `s`, or `s.len()` when `b`
/// does not occur.
pub open spec fn first_index(s: Seq<u8>, b: u8) -> int
    decreases s.len(),
{
    if s.len() == 0 {
        0
    } else if s[0] == b {
        0
    } else {
        1 + first_index(s.drop_first(), b)
    }
}

pub proof fn lemma_first_index(s: Seq<u8>, b: u8)
    ensures
        0 <= first_index(s, b) <= s.len(),
        first_index(s, b) < s.len() ==> s[first_index(s, b)] == b,
        forall|j: int| 0 <= j < first_index(s, b) ==> s[j] != b,
        contains_byte(s, b) <==> first_index(s, b) < s.len(),
    decreases s.len(),
{
    if s.len() == 0 {
    } else if s[0] == b {
        assert(contains_byte(s, b));
    } else {
        let rest = s.drop_first();
        lemma_first_index(rest, b);
        let i = first_index(s, b);
        assert(forall|j: int| 1 <= j < i ==> s[j] == rest[j - 1]);
        if i < s.len() {
            assert(s[i] == rest[i - 1]);
            assert(contains_byte(s, b));
        } else {
            assert(!contains_byte(rest, b));
            if contains_byte(s, b) {
                let k = choose|k: int| 0 <= k < s.len() && s[k] == b;
                assert(rest[k - 1] == b);
                assert(contains_byte(rest, b));
                assert(false);
            }
        }
    }
}

/// `s` split on every occurrence of `sep`: one token more than there are
/// separators, in order, each without `sep`.  The empty byte string yields
/// one empty token.
pub open spec fn split_bytes(s: Seq<u8>, sep: u8) -> Seq<Seq<u8>>
    decreases s.len(),
{
    if s.len() == 0 {
        seq![Seq::<u8>::empty()]
    } else if s[0] == sep {
        seq![Seq::<u8>::empty()] + split_bytes(s.drop_first(), sep)
    } else {
        let rest = split_bytes(s.drop_first(), sep);
        seq![seq![s[0]] + rest[0]] + rest.drop_first()
    }
}

pub proof fn lemma_split_bytes_len(s: Seq<u8>, sep: u8)
    ensures
        split_bytes(s, sep).len() >= 1,
    decreases s.len(),
{
    if s.len() == 0 {
    } else {
        lemma_split_bytes_len(s.drop_first(), sep);
    }
}

/// Splitting a byte string without the separator yields that string as the
/// one token.
pub proof fn lemma_split_bytes_no_sep(s: Seq<u8>, sep: u8)
    requires
        !contains_byte(s, sep),
    ensures
        split_bytes(s, sep) == seq![s],
    decreases s.len(),
{
    if s.len() == 0 {
        assert(split_bytes(s, sep) =~~= seq![s]);
    } else {
        assert(s[0] != sep);
        let rest = s.drop_first();
        assert(!contains_byte(rest, sep)) by {
            if contains_byte(rest, sep) {
                let k = choose|k: int| 0 <= k < rest.len() && rest[k] == sep;
                assert(s[k + 1] == sep);
            }
        }
        lemma_split_bytes_no_sep(rest, sep);
        assert(split_bytes(s, sep) =~~= seq![s]);
    }
}

/// Splitting a byte string that holds the separator: the first token is
/// everything before the first separator, and the rest is the split of
/// everything after it.
pub proof fn lemma_split_bytes_at_first(s: Seq<u8>, sep: u8)
    requires
        contains_byte(s, sep),
    ensures
        ({
            let i = first_index(s, sep);
            split_bytes(s, sep) == seq![s.take(i)] + split_bytes(s.skip(i + 1), sep)
        }),
    decreases s.len(),
{
    lemma_first_index(s, sep);
    let i = first_index(s, sep);
    if s.len() == 0 {
    } else if s[0] == sep {
        assert(i == 0);
        assert(s.skip(1) == s.drop_first());
        assert(s.take(0) =~= Seq::<u8>::empty());
        assert(split_bytes(s, sep) =~~= seq![s.take(0)] + split_bytes(s.skip(1), sep));
    } else {
        let rest = s.drop_first();
        assert(contains_byte(rest, sep)) by {
            let k = choose|k: int| 0 <= k < s.len() && s[k] == sep;
            assert(rest[k - 1] == sep);
        }
        lemma_first_index(rest, sep);
        lemma_split_bytes_at_first(rest, sep);
        let ri = first_index(rest, sep);
        assert(i == 1 + ri);
        lemma_split_bytes_len(rest.skip(ri + 1), sep);
        assert(seq![s[0]] + rest.take(ri) =~= s.take(i));
        assert(rest.skip(ri + 1) =~= s.skip(i + 1));
        assert(split_bytes(s, sep) =~~= seq![s.take(i)] + split_bytes(s.skip(i + 1), sep));
    }
}

/// Every byte of every token of `split_bytes(s, sep)` is a byte of `s`:
/// a property `p` of all bytes of `s` holds of all bytes of all tokens.
pub proof fn lemma_split_bytes_bytes(s: Seq<u8>, sep: u8, p: spec_fn(u8) -> bool)
    requires
        forall|k: int| 0 <= k < s.len() ==> p(s[k]),
    ensures
        forall|i: int, j: int|
            0 <= i < split_bytes(s, sep).len() && 0 <= j < split_bytes(s, sep)[i].len() ==> p(
                split_bytes(s, sep)[i][j],
            ),
    decreases s.len(),
{
    if s.len() == 0 {
    } else {
        let rest = s.drop_first();
        assert(forall|k: int| 0 <= k < rest.len() ==> p(rest[k]));
        lemma_split_bytes_bytes(rest, sep, p);
        lemma_split_bytes_len(rest, sep);
        let sp = split_bytes(s, sep);
        let rp = split_bytes(rest, sep);
        if s[0] == sep {
            assert(forall|i: int, j: int| 0 <= i < sp.len() && 0 <= j < sp[i].len() ==> p(sp[i][j]))
                by {
                assert(forall|i: int| 1 <= i < sp.len() ==> sp[i] == rp[i - 1]);
            }
        } else {
            assert(forall|i: int, j: int| 0 <= i < sp.len() && 0 <= j < sp[i].len() ==> p(sp[i][j]))
                by {
                assert(sp[0] == seq![s[0]] + rp[0]);
                assert(forall|j: int| 1 <= j < sp[0].len() ==> sp[0][j] == rp[0][j - 1]);
                assert(forall|i: int| 1 <= i < sp.len() ==> sp[i] == rp.drop_first()[i - 1]);
                assert(forall|i: int| 1 <= i < sp.len() ==> sp[i] == rp[i]);
            }
        }
    }
}

/// `s` with its leading blanks dropped.
pub open spec fn trim_start(s: Seq<u8>) -> Seq<u8>
    decreases s.len(),
{
    if s.len() > 0 && is_blank_byte(s[0]) {
        trim_start(s.drop_first())
    } else {
        s
    }
}

/// `s` with its trailing blanks dropped.
pub open spec fn trim_end(s: Seq<u8>) -> Seq<u8>
    decreases s.len(),
{
    if s.len() > 0 && is_blank_byte(s.last()) {
        trim_end(s.drop_last())
    } else {
        s
    }
}

/// `s` with leading and trailing blanks dropped.
pub open spec fn trim(s: Seq<u8>) -> Seq<u8> {
    trim_end(trim_start(s))
}

pub proof fn lemma_trim_start_skip(s: Seq<u8>, a: int)
    requires
        0 <= a <= s.len(),
        forall|j: int| 0 <= j < a ==> is_blank_byte(s[j]),
        a < s.len() ==> !is_blank_byte(s[a]),
    ensures
        trim_start(s) == s.skip(a),
    decreases a,
{
    if a == 0 {
        assert(s.skip(0) =~= s);
    } else {
        let rest = s.drop_first();
        assert(forall|j: int| 0 <= j < a - 1 ==> rest[j] == s[j + 1]);
        lemma_trim_start_skip(rest, a - 1);
        assert(rest.skip(a - 1) =~= s.skip(a));
    }
}

pub proof fn lemma_trim_end_take(s: Seq<u8>, z: int)
    requires
        0 <= z <= s.len(),
        forall|j: int| z <= j < s.len() ==> is_blank_byte(s[j]),
        z > 0 ==> !is_blank_byte(s[z - 1]),
    ensures
        trim_end(s) == s.take(z),
    decreases s.len() - z,
{
    if z == s.len() {
        if s.len() > 0 && is_blank_byte(s.last()) {
            assert(false);
        }
        assert(s.take(z) =~= s);
    } else {
        assert(is_blank_byte(s.last()));
        let front = s.drop_last();
        assert(forall|j: int| z <= j < front.len() ==> front[j] == s[j]);
        lemma_trim_end_take(front, z);
        assert(front.take(z) =~= s.take(z));
    }
}

pub proof fn lemma_trim_start_bytes(s: Seq<u8>, p: spec_fn(u8) -> bool)
    requires
        forall|k: int| 0 <= k < s.len() ==> p(s[k]),
    ensures
        forall|k: int| 0 <= k < trim_start(s).len() ==> p(trim_start(s)[k]),
    decreases s.len(),
{
    if s.len() > 0 && is_blank_byte(s[0]) {
        let rest = s.drop_first();
        assert(forall|k: int| 0 <= k < rest.len() ==> p(rest[k]));
        lemma_trim_start_bytes(rest, p);
        assert(trim_start(s) == trim_start(rest));
    } else {
        assert(trim_start(s) == s);
    }
}

pub proof fn lemma_trim_end_bytes(s: Seq<u8>, p: spec_fn(u8) -> bool)
    requires
        forall|k: int| 0 <= k < s.len() ==> p(s[k]),
    ensures
        forall|k: int| 0 <= k < trim_end(s).len() ==> p(trim_end(s)[k]),
    decreases s.len(),
{
    if s.len() > 0 && is_blank_byte(s.last()) {
        let front = s.drop_last();
        assert(forall|k: int| 0 <= k < front.len() ==> p(front[k]));
        lemma_trim_end_bytes(front, p);
        assert(trim_end(s) == trim_end(front));
    } else {
        assert(trim_end(s) == s);
    }
}

/// A property of all bytes of `s` holds of all bytes of `trim(s)`.
pub proof fn lemma_trim_bytes(s: Seq<u8>, p: spec_fn(u8) -> bool)
    requires
        forall|k: int| 0 <= k < s.len() ==> p(s[k]),
    ensures
        forall|k: int| 0 <= k < trim(s).len() ==> p(trim(s)[k]),
{
    lemma_trim_start_bytes(s, p);
    lemma_trim_end_bytes(trim_start(s), p);
}

/// The value of a parameter once an opening double quote is accounted for:
/// a value that starts with `"` loses its first and its last byte, whatever
/// that last byte is; one byte `"` alone becomes empty; any other value is
/// kept as it is.
pub open spec fn strip_quote(v: Seq<u8>) -> Seq<u8> {
    if v.len() > 0 && v[0] == 34 {
        if v.len() >= 2 {
            v.subrange(1, v.len() - 1)
        } else {
            Seq::<u8>::empty()
        }
    } else {
        v
    }
}

/// The `(key, value)` pair a comma-separated token yields: none when the
/// token has no `=`; otherwise the trimmed bytes before the first `=` and
/// the trimmed bytes after it, the value unquoted by [`strip_quote`].
pub open spec fn token_pair(t: Seq<u8>) -> Option<(Seq<u8>, Seq<u8>)> {
    if contains_byte(t, 61) {
        let i = first_index(t, 61);
        Some((trim(t.take(i)), strip_quote(trim(t.skip(i + 1)))))
    } else {
        None
    }
}

/// A token whose bytes all render as text yields a pair whose key and
/// value bytes all render as text: key and value are made of the token's
/// bytes.
pub proof fn lemma_token_pair_visible(t: Seq<u8>, key: Seq<u8>, val: Seq<u8>)
    requires
        forall|k: int| 0 <= k < t.len() ==> visible_ascii_byte(t[k]),
        token_pair(t) == Some((key, val)),
    ensures
        forall|k: int| 0 <= k < key.len() ==> visible_ascii_byte(key[k]),
        forall|j: int| 0 <= j < val.len() ==> visible_ascii_byte(val[j]),
{
    let p = |b: u8| visible_ascii_byte(b);
    lemma_first_index(t, 61);
    let i = first_index(t, 61);
    let keyraw = t.take(i);
    let valraw = t.skip(i + 1);
    assert(key == trim(keyraw));
    assert(val == strip_quote(trim(valraw)));
    assert forall|k: int| 0 <= k < keyraw.len() implies p(keyraw[k]) by {
        assert(visible_ascii_byte(t[k]));
    }
    lemma_trim_bytes(keyraw, p);
    assert forall|k: int| 0 <= k < valraw.len() implies p(valraw[k]) by {
        assert(visible_ascii_byte(t[k + i + 1]));
    }
    lemma_trim_bytes(valraw, p);
    let tv = trim(valraw);
    assert forall|k: int| 0 <= k < key.len() implies visible_ascii_byte(key[k]) by {
        assert(p(trim(keyraw)[k]));
    }
    if tv.len() > 0 && tv[0] == 34 {
        if tv.len() >= 2 {
            assert forall|j: int| 0 <= j < val.len() implies visible_ascii_byte(val[j]) by {
                assert(val[j] == tv[j + 1]);
                assert(p(tv[j + 1]));
            }
        }
    } else {
        assert forall|j: int| 0 <= j < val.len() implies visible_ascii_byte(val[j]) by {
            assert(p(tv[j]));
        }
    }
}

/// All `(key, value)` pairs of the raw parameter bytes, in order: split on
/// commas, each token with an `=` yielding one pair.
pub open spec fn param_pairs(params: Seq<u8>) -> Seq<(Seq<u8>, Seq<u8>)> {
    split_bytes(params, 44).filter_map(|t: Seq<u8>| token_pair(t))
}

proof fn lemma_count_eq_tokens(ts: Seq<Seq<u8>>)
    ensures
        ts.filter_map(|t: Seq<u8>| token_pair(t)).len() == ts.filter(
            |t: Seq<u8>| contains_byte(t, 61),
        ).len(),
    decreases ts.len(),
{
    reveal(Seq::filter);
    if ts.len() == 0 {
    } else {
        lemma_count_eq_tokens(ts.drop_last());
        lemma_first_index(ts.last(), 61);
    }
}

/// Law: there are exactly as many parameter pairs as there are
/// comma-separated tokens that contain an `=`; a token without an `=`
/// contributes nothing.  For parameter bytes that render as text this is
/// also the number of pairs listed as text.
pub proof fn lemma_pair_count(params: Seq<u8>)
    ensures
        param_pairs(params).len() == split_bytes(params, 44).filter(
            |t: Seq<u8>| contains_byte(t, 61),
        ).len(),
        visible_ascii(params) ==> text_pairs(params).len() == param_pairs(params).len(),
{
    lemma_count_eq_tokens(split_bytes(params, 44));
}

/// The characters of an all-ASCII byte string, byte for byte.
pub open spec fn ascii_chars_of(s: Seq<u8>) -> Seq<char> {
    s.map_values(|b: u8| b as char)
}

/// The parameter pairs read as text.  The raw parameter bytes are read as
/// text only when every byte renders as text; otherwise no pair is listed.
pub open spec fn text_pairs(params: Seq<u8>) -> Seq<(Seq<char>, Seq<char>)> {
    if visible_ascii(params) {
        param_pairs(params).map_values(
            |p: (Seq<u8>, Seq<u8>)| (ascii_chars_of(p.0), ascii_chars_of(p.1)),
        )
    } else {
        Seq::<(Seq<char>, Seq<char>)>::empty()
    }
}

/// The value of the first pair whose key is exactly `name`, if any.
pub open spec fn lookup_pairs(pairs: Seq<(Seq<char>, Seq<char>)>, name: Seq<char>) -> Option<
    Seq<char>,
>
    decreases pairs.len(),
{
    if pairs.len() == 0 {
        None
    } else if pairs[0].0 == name {
        Some(pairs[0].1)
    } else {
        lookup_pairs(pairs.drop_first(), name)
    }
}

/// Law: a lookup finds nothing exactly when no listed pair bears the key,
/// however many pairs are listed.
pub proof fn lemma_lookup_absent(pairs: Seq<(Seq<char>, Seq<char>)>, name: Seq<char>)
    ensures
        lookup_pairs(pairs, name) is None <==> (forall|i: int|
            0 <= i < pairs.len() ==> pairs[i].0 != name),
    decreases pairs.len(),
{
    if pairs.len() == 0 {
    } else if pairs[0].0 == name {
    } else {
        lemma_lookup_absent(pairs.drop_first(), name);
        assert(forall|i: int| 1 <= i < pairs.len() ==> pairs[i] == pairs.drop_first()[i - 1]);
    }
}

/// A copy of `v[from..to]`.
pub(crate) fn copy_range(v: &Vec<u8>, from: usize, to: usize) -> (r: Vec<u8>)
    requires
        from <= to <= v@.len(),
    ensures
        r@ == v@.subrange(from as int, to as int),
{
    let mut r: Vec<u8> = Vec::new();
    let mut i: usize = from;
    while i < to
        invariant
            from <= i <= to <= v@.len(),
            r@ == v@.subrange(from as int, i as int),
        decreases to - i,
    {
        r.push(v[i]);
        proof {
            assert(v@.subrange(from as int, i + 1) =~= v@.subrange(from as int, i as int).push(
                v@[i as int],
            ));
        }
        i = i + 1;
    }
    r
}

/// The index of the first occurrence of `b` in `v`, or `v.len()` when `b`
/// does not occur.
pub(crate) fn find_byte(v: &Vec<u8>, b: u8) -> (r: usize)
    ensures
        r as int == first_index(v@, b),
{
    let mut i: usize = 0;
    while i < v.len()
        invariant
            i <= v@.len(),
            forall|j: int| 0 <= j < i ==> v@[j] != b,
        decreases v@.len() - i,
    {
        if v[i] == b {
            proof {
                lemma_first_index(v@, b);
            }
            return i;
        }
        i = i + 1;
    }
    proof {
        lemma_first_index(v@, b);
        if contains_byte(v@, b) {
            let k = choose|k: int| 0 <= k < v@.len() && v@[k] == b;
            assert(false);
        }
    }
    i
}

/// Whether every byte of `v` renders as text.
pub(crate) fn all_visible(v: &Vec<u8>) -> (r: bool)
    ensures
        r == visible_ascii(v@),
{
    let mut i: usize = 0;
    while i < v.len()
        invariant
            i <= v@.len(),
            forall|j: int| 0 <= j < i ==> visible_ascii_byte(v@[j]),
        decreases v@.len() - i,
    {
        let b = v[i];
        if !(b == 9 || (32 <= b && b < 127)) {
            return false;
        }
        i = i + 1;
    }
    true
}

/// A copy of `v` with leading and trailing blanks dropped.
pub(crate) fn trim_bytes(v: &Vec<u8>) -> (r: Vec<u8>)
    ensures
        r@ == trim(v@),
{
    let mut a: usize = 0;
    while a < v.len() && (v[a] == 32 || v[a] == 9)
        invariant
            a <= v@.len(),
            forall|j: int| 0 <= j < a ==> is_blank_byte(v@[j]),
        decreases v@.len() - a,
    {
        a = a + 1;
    }
    let mut z: usize = v.len();
    while z > a && (v[z - 1] == 32 || v[z - 1] == 9)
        invariant
            a <= z <= v@.len(),
            forall|j: int| z <= j < v@.len() ==> is_blank_byte(v@[j]),
        decreases z,
    {
        z = z - 1;
    }
    proof {
        lemma_trim_start_skip(v@, a as int);
        lemma_trim_end_take(v@.skip(a as int), z - a);
        assert(v@.skip(a as int).take(z - a) =~= v@.subrange(a as int, z as int));
    }
    copy_range(v, a, z)
}

/// The comma-separated tokens of `v`, as [`split_bytes`] lists them.
pub(crate) fn split_commas(v: &Vec<u8>) -> (r: Vec<Vec<u8>>)
    ensures
        r@.len() == split_bytes(v@, 44).len(),
        forall|i: int| 0 <= i < r@.len() ==> r@[i]@ == split_bytes(v@, 44)[i],
{
    let mut r: Vec<Vec<u8>> = Vec::new();
    let mut start: usize = 0;
    let mut i: usize = 0;
    proof {
        assert(v@.skip(0) =~= v@);
        assert(r@.map_values(|t: Vec<u8>| t@) + split_bytes(v@, 44) =~~= split_bytes(v@, 44));
    }
    while i < v.len()
        invariant
            start <= i <= v@.len(),
            forall|j: int| start <= j < i ==> v@[j] != 44,
            split_bytes(v@, 44) == r@.map_values(|t: Vec<u8>| t@) + split_bytes(
                v@.skip(start as int),
                44,
            ),
        decreases v@.len() - i,
    {
        if v[i] == 44 {
            let tok = copy_range(v, start, i);
            proof {
                let tail = v@.skip(start as int);
                lemma_first_index(tail, 44);
                assert(tail[i - start] == 44);
                lemma_split_bytes_at_first(tail, 44);
                assert(first_index(tail, 44) == i - start);
                assert(tail.take(i - start) =~= v@.subrange(start as int, i as int));
                assert(tail.skip(i - start + 1) =~= v@.skip(i + 1));
                assert((r@.push(tok)).map_values(|t: Vec<u8>| t@) =~= r@.map_values(
                    |t: Vec<u8>| t@,
                ).push(tok@));
            }
            r.push(tok);
            start = i + 1;
        }
        i = i + 1;
    }
    let tok = copy_range(v, start, v.len());
    proof {
        let tail = v@.skip(start as int);
        assert(!contains_byte(tail, 44)) by {
            if contains_byte(tail, 44) {
                let k = choose|k: int| 0 <= k < tail.len() && tail[k] == 44;
                assert(v@[start + k] == 44);
            }
        }
        lemma_split_bytes_no_sep(tail, 44);
        assert(tail =~= v@.subrange(start as int, v@.len() as int));
        assert((r@.push(tok)).map_values(|t: Vec<u8>| t@) =~= r@.map_values(
            |t: Vec<u8>| t@,
        ).push(tok@));
    }
    r.push(tok);
    r
}

/// The `(key, value)` pair of one comma-separated token, as [`token_pair`]
/// gives it.
pub(crate) fn parse_token(t: &Vec<u8>) -> (r: Option<(Vec<u8>, Vec<u8>)>)
    ensures
        match r {
            Some(p) => token_pair(t@) == Some((p.0@, p.1@)),
            None => token_pair(t@) is None,
        },
{
    let eq = find_byte(t, 61);
    proof {
        lemma_first_index(t@, 61);
    }
    if eq == t.len() {
        return None;
    }
    let keyraw = copy_range(t, 0, eq);
    let key = trim_bytes(&keyraw);
    let valraw = copy_range(t, eq + 1, t.len());
    let val = trim_bytes(&valraw);
    proof {
        assert(t@.take(eq as int) =~= t@.subrange(0, eq as int));
        assert(t@.skip(eq + 1) =~= t@.subrange(eq + 1, t@.len() as int));
    }
    if val.len() > 0 && val[0] == 34 {
        if val.len() >= 2 {
            let stripped = copy_range(&val, 1, val.len() - 1);
            Some((key, stripped))
        } else {
            Some((key, Vec::new()))
        }
    } else {
        Some((key, val))
    }
}

/// Relies on `String::from_utf8`: a vector of ASCII bytes decodes to the
/// string of exactly those bytes read as characters.
#[verifier::external_body]
pub(crate) fn ascii_string(bytes: Vec<u8>) -> (r: String)
    requires
        forall|i: int| 0 <= i < bytes@.len() ==> bytes@[i] < 128,
    ensures
        r@ == ascii_chars_of(bytes@),
{
    String::from_utf8(bytes).unwrap_or_default()
}

} // verus!
