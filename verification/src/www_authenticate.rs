//! The `WWW-Authenticate` header: an authentication scheme token (such as
//! `Bearer` or `Basic`), optionally followed by one space and a
//! comma-separated list of `key=value` parameters.
//!
//! Decoding takes the first raw value received and splits it at its first
//! space; everything after that space is kept as the raw parameter bytes
//! and parsed afresh on every read, as [`crate::csv`] describes.  Decoding
//! fails only when there is no raw value at all; malformed parameter
//! syntax merely yields no matching pair.

use vstd::prelude::*;

use crate::Error;
use crate::Header;
use crate::csv::ascii_chars_of;
use crate::csv::ascii_string;
use crate::csv::all_visible;
use crate::csv::contains_byte;
use crate::csv::copy_range;
use crate::csv::find_byte;
use crate::csv::first_index;
use crate::csv::lemma_first_index;
use crate::csv::lemma_split_bytes_bytes;
use crate::csv::lemma_token_pair_visible;
use crate::csv::lookup_pairs;
use crate::csv::param_pairs;
use crate::csv::parse_token;
use crate::csv::split_bytes;
use crate::csv::split_commas;
use crate::csv::text_pairs;
use crate::csv::token_pair;
use crate::value::HeaderValue;
use crate::value::valid_value_bytes;
use crate::value::visible_ascii;
use crate::value::visible_ascii_byte;

verus! {

/// The scheme part of a raw value: the bytes before the first space, or
/// the whole value when it has no space.
pub open spec fn scheme_of(raw: Seq<u8>) -> Seq<u8> {
    if contains_byte(raw, 32) {
        raw.take(first_index(raw, 32))
    } else {
        raw
    }
}

/// The parameter part of a raw value: the bytes after the first space, or
/// empty when the value has no space.
pub open spec fn params_of(raw: Seq<u8>) -> Seq<u8> {
    if contains_byte(raw, 32) {
        raw.skip(first_index(raw, 32) + 1)
    } else {
        Seq::<u8>::empty()
    }
}

/// The `WWW-Authenticate` header.  The view is the pair of the scheme
/// bytes and the raw parameter bytes.
#[derive(Debug, PartialEq, Eq, Hash)]
pub struct WwwAuthenticate {
    scheme: Vec<u8>,
    params: Vec<u8>,
}

impl Clone for WwwAuthenticate {
    /// A clone carries the same scheme and parameter bytes.
    fn clone(&self) -> (res: Self)
        ensures
            res@ == self@,
    {
        proof {
            use_type_invariant(&*self);
            assert(self.scheme@.subrange(0, self.scheme@.len() as int) =~= self.scheme@);
            assert(self.params@.subrange(0, self.params@.len() as int) =~= self.params@);
        }
        WwwAuthenticate {
            scheme: copy_range(&self.scheme, 0, self.scheme.len()),
            params: copy_range(&self.params, 0, self.params.len()),
        }
    }
}

impl View for WwwAuthenticate {
    type V = (Seq<u8>, Seq<u8>);

    closed spec fn view(&self) -> (Seq<u8>, Seq<u8>) {
        (self.scheme@, self.params@)
    }
}

impl WwwAuthenticate {
    /// Both parts always hold only bytes allowed in a header field value.
    #[verifier::type_invariant]
    pub open spec fn wf(self) -> bool {
        valid_value_bytes(self@.0) && valid_value_bytes(self@.1)
    }

    /// The bytes of the scheme token.
    pub open spec fn scheme_bytes(self) -> Seq<u8> {
        self@.0
    }

    /// The raw bytes of the comma-separated parameter list.
    pub open spec fn params_bytes(self) -> Seq<u8> {
        self@.1
    }

    /// Decode from the raw values received under this header's name: take
    /// the first value alone and split it at its first space.  Fails
    /// exactly when there is no value.
    pub fn decode(values: &Vec<HeaderValue>) -> (r: Result<Self, Error>)
        ensures
            match r {
                Ok(w) => values@.len() > 0 && w.scheme_bytes() == scheme_of(values@[0]@)
                    && w.params_bytes() == params_of(values@[0]@),
                Err(_) => values@.len() == 0,
            },
    {
        if values.len() == 0 {
            return Err(Error::invalid());
        }
        let v0 = &values[0];
        proof {
            use_type_invariant(v0);
        }
        let bytes = v0.as_bytes();
        let ws = find_byte(bytes, 32);
        proof {
            lemma_first_index(bytes@, 32);
        }
        if ws == bytes.len() {
            let scheme = copy_range(bytes, 0, bytes.len());
            proof {
                assert(bytes@.subrange(0, bytes@.len() as int) =~= bytes@);
            }
            Ok(WwwAuthenticate { scheme, params: Vec::new() })
        } else {
            let scheme = copy_range(bytes, 0, ws);
            let params = copy_range(bytes, ws + 1, bytes.len());
            proof {
                assert(bytes@.take(ws as int) =~= bytes@.subrange(0, ws as int));
                assert(bytes@.skip(ws + 1) =~= bytes@.subrange(ws + 1, bytes@.len() as int));
            }
            Ok(WwwAuthenticate { scheme, params })
        }
    }

    /// Append the raw values that carry `self` to `values`: the scheme
    /// token, then, only when there are parameter bytes, the parameter
    /// list as a second value.
    pub fn encode(&self, values: &mut Vec<HeaderValue>)
        ensures
            forall|i: int| 0 <= i < old(values)@.len() ==> final(values)@[i] == old(values)@[i],
            self.params_bytes().len() == 0 ==> final(values)@.len() == old(values)@.len() + 1,
            self.params_bytes().len() > 0 ==> final(values)@.len() == old(values)@.len() + 2,
            final(values)@[old(values)@.len() as int]@ == self.scheme_bytes(),
            self.params_bytes().len() > 0 ==> final(values)@[old(values)@.len() as int + 1]@
                == self.params_bytes(),
    {
        proof {
            use_type_invariant(&*self);
        }
        let scheme = copy_range(&self.scheme, 0, self.scheme.len());
        proof {
            assert(self.scheme@.subrange(0, self.scheme@.len() as int) =~= self.scheme@);
        }
        values.push(HeaderValue::from_valid(scheme));
        if self.params.len() > 0 {
            let params = copy_range(&self.params, 0, self.params.len());
            proof {
                assert(self.params@.subrange(0, self.params@.len() as int) =~= self.params@);
            }
            values.push(HeaderValue::from_valid(params));
        }
    }

    /// The scheme token as text, or nothing when some of its bytes do not
    /// render as text.
    pub fn scheme(&self) -> (r: Option<String>)
        ensures
            match r {
                Some(s) => visible_ascii(self.scheme_bytes()) && s@ == ascii_chars_of(
                    self.scheme_bytes(),
                ),
                None => !visible_ascii(self.scheme_bytes()),
            },
    {
        if all_visible(&self.scheme) {
            let bytes = copy_range(&self.scheme, 0, self.scheme.len());
            proof {
                assert(self.scheme@.subrange(0, self.scheme@.len() as int) =~= self.scheme@);
            }
            Some(ascii_string(bytes))
        } else {
            None
        }
    }

    /// All `(key, value)` parameter pairs, in order, as
    /// [`text_pairs`] lists them for the raw parameter bytes.
    pub fn iter(&self) -> (r: Vec<(String, String)>)
        ensures
            r@.len() == text_pairs(self.params_bytes()).len(),
            forall|k: int|
                0 <= k < r@.len() ==> r@[k].0@ == text_pairs(self.params_bytes())[k].0
                    && r@[k].1@ == text_pairs(self.params_bytes())[k].1,
    {
        let mut r: Vec<(String, String)> = Vec::new();
        if !all_visible(&self.params) {
            return r;
        }
        let ghost f = |t: Seq<u8>| token_pair(t);
        let tokens = split_commas(&self.params);
        proof {
            lemma_split_bytes_bytes(self.params@, 44, |b: u8| visible_ascii_byte(b));
            assert forall|k: int, j: int|
                0 <= k < tokens@.len() && 0 <= j < tokens@[k]@.len() implies visible_ascii_byte(
                tokens@[k]@[j],
            ) by {
                assert(tokens@[k]@ == split_bytes(self.params@, 44)[k]);
                assert(visible_ascii_byte(split_bytes(self.params@, 44)[k][j]));
            }
        }
        let mut i: usize = 0;
        while i < tokens.len()
            invariant
                visible_ascii(self.params@),
                i <= tokens@.len(),
                f == (|t: Seq<u8>| token_pair(t)),
                tokens@.len() == split_bytes(self.params@, 44).len(),
                forall|k: int|
                    0 <= k < tokens@.len() ==> tokens@[k]@ == split_bytes(self.params@, 44)[k],
                forall|k: int, j: int|
                    0 <= k < tokens@.len() && 0 <= j < tokens@[k]@.len() ==> visible_ascii_byte(
                        tokens@[k]@[j],
                    ),
                r@.len() == split_bytes(self.params@, 44).take(i as int).filter_map(f).len(),
                forall|k: int|
                    0 <= k < r@.len() ==> r@[k].0@ == ascii_chars_of(
                        split_bytes(self.params@, 44).take(i as int).filter_map(f)[k].0,
                    ) && r@[k].1@ == ascii_chars_of(
                        split_bytes(self.params@, 44).take(i as int).filter_map(f)[k].1,
                    ),
            decreases tokens@.len() - i,
        {
            let ghost sp = split_bytes(self.params@, 44);
            proof {
                sp.lemma_filter_map_take_succ(f, i as int);
                assert(forall|j: int|
                    0 <= j < tokens@[i as int]@.len() ==> visible_ascii_byte(tokens@[i as int]@[j]));
            }
            match parse_token(&tokens[i]) {
                Some(pair) => {
                    proof {
                        assert(token_pair(tokens@[i as int]@) == Some((pair.0@, pair.1@)));
                        lemma_token_pair_visible(tokens@[i as int]@, pair.0@, pair.1@);
                        assert forall|k: int| 0 <= k < pair.0@.len() implies pair.0@[k] < 128 by {
                            assert(visible_ascii_byte(pair.0@[k]));
                        }
                        assert forall|k: int| 0 <= k < pair.1@.len() implies pair.1@[k] < 128 by {
                            assert(visible_ascii_byte(pair.1@[k]));
                        }
                    }
                    let key = ascii_string(pair.0);
                    let val = ascii_string(pair.1);
                    r.push((key, val));
                },
                None => {
                },
            }
            i = i + 1;
        }
        proof {
            assert(split_bytes(self.params@, 44).take(tokens@.len() as int) =~= split_bytes(
                self.params@,
                44,
            ));
            assert(text_pairs(self.params@) == param_pairs(self.params@).map_values(
                |p: (Seq<u8>, Seq<u8>)| (ascii_chars_of(p.0), ascii_chars_of(p.1)),
            ));
        }
        r
    }

    /// The number of `key=value` parameter pairs.
    pub fn len(&self) -> (n: usize)
        ensures
            n as int == text_pairs(self.params_bytes()).len(),
    {
        self.iter().len()
    }

    /// The value of the first parameter whose key is exactly `name`, or
    /// nothing when no listed pair has that key.
    pub fn get(&self, name: &str) -> (r: Option<String>)
        ensures
            match r {
                Some(v) => lookup_pairs(text_pairs(self.params_bytes()), name@) == Some(v@),
                None => lookup_pairs(text_pairs(self.params_bytes()), name@) is None,
            },
    {
        let pairs = self.iter();
        let target: String = name.to_owned();
        let ghost tp = text_pairs(self.params_bytes());
        let mut i: usize = 0;
        proof {
            assert(tp.skip(0) =~= tp);
        }
        while i < pairs.len()
            invariant
                i <= pairs@.len(),
                target@ == name@,
                tp == text_pairs(self.params_bytes()),
                pairs@.len() == tp.len(),
                forall|k: int|
                    0 <= k < pairs@.len() ==> pairs@[k].0@ == tp[k].0 && pairs@[k].1@ == tp[k].1,
                lookup_pairs(tp, name@) == lookup_pairs(tp.skip(i as int), name@),
            decreases pairs@.len() - i,
        {
            if pairs[i].0 == target {
                proof {
                    assert(tp.skip(i as int)[0] == tp[i as int]);
                }
                return Some(pairs[i].1.clone());
            }
            proof {
                assert(tp.skip(i as int)[0] == tp[i as int]);
                assert(tp.skip(i as int).drop_first() =~= tp.skip(i + 1));
            }
            i = i + 1;
        }
        proof {
            assert(tp.skip(pairs@.len() as int) =~= Seq::<(Seq<char>, Seq<char>)>::empty());
        }
        None
    }
}

/// Law: the split that decoding performs loses nothing, so re-encoding
/// preserves the raw text byte for byte: for every raw value with a
/// space, the scheme bytes, one space and the parameter bytes concatenate
/// back to the value itself.
pub proof fn lemma_split_round_trip(raw: Seq<u8>)
    requires
        contains_byte(raw, 32),
    ensures
        scheme_of(raw) + seq![32u8] + params_of(raw) == raw,
{
    lemma_first_index(raw, 32);
    let i = first_index(raw, 32);
    assert(raw.take(i) + seq![32u8] + raw.skip(i + 1) =~= raw);
}

/// The lowercase name of the `WWW-Authenticate` header, and decoding and
/// encoding as the [`Header`] capability asks for them.  The impl methods
/// restate the inherent methods' contracts, so that callers going through
/// the trait get the same guarantees.
impl Header for WwwAuthenticate {
    fn name() -> (r: &'static str)
        ensures
            r@ == "www-authenticate"@,
    {
        "www-authenticate"
    }

    fn decode(values: &Vec<HeaderValue>) -> (r: Result<Self, Error>)
        ensures
            match r {
                Ok(w) => values@.len() > 0 && w.scheme_bytes() == scheme_of(values@[0]@)
                    && w.params_bytes() == params_of(values@[0]@),
                Err(_) => values@.len() == 0,
            },
    {
        WwwAuthenticate::decode(values)
    }

    fn encode(&self, values: &mut Vec<HeaderValue>)
        ensures
            forall|i: int| 0 <= i < old(values)@.len() ==> final(values)@[i] == old(values)@[i],
            self.params_bytes().len() == 0 ==> final(values)@.len() == old(values)@.len() + 1,
            self.params_bytes().len() > 0 ==> final(values)@.len() == old(values)@.len() + 2,
            final(values)@[old(values)@.len() as int]@ == self.scheme_bytes(),
            self.params_bytes().len() > 0 ==> final(values)@[old(values)@.len() as int + 1]@
                == self.params_bytes(),
    {
        WwwAuthenticate::encode(self, values)
    }
}

} // verus!
