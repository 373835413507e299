//! The inbound wire format: one JSON object per tick.
//!
//! A book-ticker message is a flat JSON object whose values are plain
//! strings (no escapes) or unsigned integers: the symbol under `"s"`,
//! the best bid price and quantity under `"b"` and `"B"`, the best ask
//! price and quantity under `"a"` and `"A"`, and the event time in
//! milliseconds under `"T"`. Unknown members are ignored; a duplicated
//! or mistyped required member, or anything outside this grammar, fails
//! the parse — and a failed parse drops the message, never the
//! connection.
//!
//! [`parse_ticker`] recognizes the envelope; [`quote_from_ticker`]
//! validates the numeric fields and builds the engine's [`Quote`].

use vstd::prelude::*;
use vstd::string::StrSliceExecFns;
use vstd::string::StringExecFns;
use crate::fixed::digits_val;
use crate::fixed::is_digit;
use crate::fixed::scan_digits;
use crate::fixed::spec_parse_scaled;
use crate::fixed::parse_scaled;
use crate::types::Quote;

verus! {

/// A parsed book-ticker message, numeric fields still as the wire's
/// strings.
#[derive(Debug, Clone)]
pub struct BookTickerMsg {
    pub symbol: String,
    pub bid_price: String,
    pub bid_qty: String,
    pub ask_price: String,
    pub ask_qty: String,
    pub time: u64,
}

/// The fields of a ticker object as the grammar collects them; `None`
/// marks a member not yet seen.
pub struct TickerFields {
    pub symbol: Option<Seq<char>>,
    pub bid_price: Option<Seq<char>>,
    pub bid_qty: Option<Seq<char>>,
    pub ask_price: Option<Seq<char>>,
    pub ask_qty: Option<Seq<char>>,
    pub time: Option<int>,
}

pub open spec fn empty_fields() -> TickerFields {
    TickerFields {
        symbol: None,
        bid_price: None,
        bid_qty: None,
        ask_price: None,
        ask_qty: None,
        time: None,
    }
}

pub open spec fn complete_fields(f: TickerFields) -> bool {
    &&& f.symbol is Some
    &&& f.bid_price is Some
    &&& f.bid_qty is Some
    &&& f.ask_price is Some
    &&& f.ask_qty is Some
    &&& f.time is Some
}

pub open spec fn spec_is_ws(c: char) -> bool {
    c == ' ' || c == '\t' || c == '\n' || c == '\r'
}

/// First non-whitespace index at or after `i`.
pub open spec fn skip_ws(s: Seq<char>, i: int) -> int
    decreases s.len() - i,
    when 0 <= i <= s.len()
{
    if i >= s.len() {
        i
    } else if spec_is_ws(s[i]) {
        skip_ws(s, i + 1)
    } else {
        i
    }
}

/// Index of the closing quote of a string body starting at `i`: the
/// first `'"'`, provided no escape (`'\\'`) comes first.
pub open spec fn scan_string_end(s: Seq<char>, i: int) -> Option<int>
    decreases s.len() - i,
    when 0 <= i <= s.len()
{
    if i >= s.len() {
        None
    } else if s[i] == '"' {
        Some(i)
    } else if s[i] == '\\' {
        None
    } else {
        scan_string_end(s, i + 1)
    }
}

/// First non-digit index at or after `i`.
pub open spec fn scan_digits_end(s: Seq<char>, i: int) -> int
    decreases s.len() - i,
    when 0 <= i <= s.len()
{
    if i >= s.len() {
        i
    } else if is_digit(s[i]) {
        scan_digits_end(s, i + 1)
    } else {
        i
    }
}

pub proof fn lemma_skip_ws(s: Seq<char>, i: int)
    requires
        0 <= i <= s.len(),
    ensures
        i <= skip_ws(s, i) <= s.len(),
        skip_ws(s, i) < s.len() ==> !spec_is_ws(s[skip_ws(s, i)]),
    decreases s.len() - i,
{
    if i < s.len() && spec_is_ws(s[i]) {
        lemma_skip_ws(s, i + 1);
    }
}

pub proof fn lemma_scan_string_end(s: Seq<char>, i: int)
    requires
        0 <= i <= s.len(),
    ensures
        match scan_string_end(s, i) {
            Some(j) => i <= j < s.len() && s[j] == '"',
            None => true,
        },
    decreases s.len() - i,
{
    if i < s.len() && s[i] != '"' && s[i] != '\\' {
        lemma_scan_string_end(s, i + 1);
    }
}

pub proof fn lemma_scan_digits_end(s: Seq<char>, i: int)
    requires
        0 <= i <= s.len(),
    ensures
        i <= scan_digits_end(s, i) <= s.len(),
    decreases s.len() - i,
{
    if i < s.len() && is_digit(s[i]) {
        lemma_scan_digits_end(s, i + 1);
    }
}

/// `j` is the first non-digit at or after `i` exactly when everything
/// before it is a digit and it is not (or is the end).
pub proof fn lemma_scan_digits_end_at(s: Seq<char>, i: int, j: int)
    requires
        0 <= i <= j <= s.len(),
        forall|k: int| i <= k < j ==> is_digit(#[trigger] s[k]),
        j < s.len() ==> !is_digit(s[j]),
    ensures
        scan_digits_end(s, i) == j,
    decreases j - i,
{
    if i < j {
        assert(is_digit(s[i]));
        lemma_scan_digits_end_at(s, i + 1, j);
    }
}

/// Record one member into the collected fields. An unknown key changes
/// nothing; a known key demands the right value type and no earlier
/// occurrence, else the message is rejected.
pub open spec fn set_field(
    f: TickerFields,
    key: Seq<char>,
    is_string: bool,
    sval: Seq<char>,
    nval: int,
) -> Option<TickerFields> {
    if key == "s"@ {
        if is_string && f.symbol is None {
            Some(TickerFields { symbol: Some(sval), ..f })
        } else {
            None
        }
    } else if key == "b"@ {
        if is_string && f.bid_price is None {
            Some(TickerFields { bid_price: Some(sval), ..f })
        } else {
            None
        }
    } else if key == "B"@ {
        if is_string && f.bid_qty is None {
            Some(TickerFields { bid_qty: Some(sval), ..f })
        } else {
            None
        }
    } else if key == "a"@ {
        if is_string && f.ask_price is None {
            Some(TickerFields { ask_price: Some(sval), ..f })
        } else {
            None
        }
    } else if key == "A"@ {
        if is_string && f.ask_qty is None {
            Some(TickerFields { ask_qty: Some(sval), ..f })
        } else {
            None
        }
    } else if key == "T"@ {
        if !is_string && 0 <= nval <= u64::MAX && f.time is None {
            Some(TickerFields { time: Some(nval), ..f })
        } else {
            None
        }
    } else {
        Some(f)
    }
}

/// Parse the members of an object from position `i` (just inside the
/// brace or after a comma): one `"key": value` member, then the tail.
/// Yields the collected fields and the index just past the closing
/// brace.
pub open spec fn spec_members(s: Seq<char>, i: int, f: TickerFields) -> Option<(TickerFields, int)>
    decreases s.len() - i,
    when 0 <= i <= s.len()
    via spec_members_dec
{
    let ks = skip_ws(s, i);
    if ks < s.len() && s[ks] == '"' {
        match scan_string_end(s, ks + 1) {
            Some(kq) => {
                let key = s.subrange(ks + 1, kq);
                let c = skip_ws(s, kq + 1);
                if c < s.len() && s[c] == ':' {
                    let vs = skip_ws(s, c + 1);
                    if vs < s.len() && s[vs] == '"' {
                        match scan_string_end(s, vs + 1) {
                            Some(vq) => match set_field(f, key, true, s.subrange(vs + 1, vq), 0) {
                                Some(f2) => spec_member_tail(s, vq + 1, f2),
                                None => None,
                            },
                            None => None,
                        }
                    } else {
                        let de = scan_digits_end(s, vs);
                        if de > vs {
                            match set_field(f, key, false, Seq::<char>::empty(), digits_val(
                                s.subrange(vs, de),
                            )) {
                                Some(f2) => spec_member_tail(s, de, f2),
                                None => None,
                            }
                        } else {
                            None
                        }
                    }
                } else {
                    None
                }
            },
            None => None,
        }
    } else {
        None
    }
}

/// After a member: a comma continues with more members, a closing brace
/// ends the object.
pub open spec fn spec_member_tail(s: Seq<char>, i: int, f: TickerFields) -> Option<
    (TickerFields, int),
>
    decreases s.len() - i,
    when 0 <= i <= s.len()
    via spec_member_tail_dec
{
    let d = skip_ws(s, i);
    if d < s.len() && s[d] == ',' {
        spec_members(s, d + 1, f)
    } else if d < s.len() && s[d] == '}' {
        Some((f, d + 1))
    } else {
        None
    }
}

#[via_fn]
proof fn spec_members_dec(s: Seq<char>, i: int, f: TickerFields) {
    lemma_skip_ws(s, i);
    let ks = skip_ws(s, i);
    if ks < s.len() && s[ks] == '"' {
        lemma_scan_string_end(s, ks + 1);
        match scan_string_end(s, ks + 1) {
            Some(kq) => {
                lemma_skip_ws(s, kq + 1);
                let c = skip_ws(s, kq + 1);
                if c < s.len() && s[c] == ':' {
                    lemma_skip_ws(s, c + 1);
                    let vs = skip_ws(s, c + 1);
                    if vs < s.len() && s[vs] == '"' {
                        lemma_scan_string_end(s, vs + 1);
                    } else {
                        lemma_scan_digits_end(s, vs);
                    }
                }
            },
            None => {},
        }
    }
}

#[via_fn]
proof fn spec_member_tail_dec(s: Seq<char>, i: int, f: TickerFields) {
    lemma_skip_ws(s, i);
}

/// What parsing a ticker message yields: the six fields, when the text
/// is one flat object of string and unsigned-integer members holding
/// each required member exactly once with the right type.
pub open spec fn spec_parse_ticker(s: Seq<char>) -> Option<TickerFields> {
    let b = skip_ws(s, 0);
    if b < s.len() && s[b] == '{' {
        match spec_members(s, b + 1, empty_fields()) {
            Some((f, j)) => {
                if 0 <= j <= s.len() && skip_ws(s, j) == s.len() && complete_fields(f) {
                    Some(f)
                } else {
                    None
                }
            },
            None => None,
        }
    } else {
        None
    }
}

/// The parsed message carries exactly the collected fields.
pub open spec fn msg_matches(m: BookTickerMsg, f: TickerFields) -> bool {
    &&& f.symbol == Some(m.symbol@)
    &&& f.bid_price == Some(m.bid_price@)
    &&& f.bid_qty == Some(m.bid_qty@)
    &&& f.ask_price == Some(m.ask_price@)
    &&& f.ask_qty == Some(m.ask_qty@)
    &&& f.time == Some(m.time as int)
}


fn skip_ws_exec(s: &str, n: usize, i: usize) -> (r: usize)
    requires
        n == s@.len(),
        i <= n,
    ensures
        r == skip_ws(s@, i as int),
        i <= r <= n,
{
    let mut j: usize = i;
    loop
        invariant
            n == s@.len(),
            i <= j <= n,
            skip_ws(s@, i as int) == skip_ws(s@, j as int),
        ensures
            j == skip_ws(s@, i as int),
            i <= j <= n,
        decreases n - j,
    {
        if j == n {
            proof {
                assert(skip_ws(s@, j as int) == j);
            }
            break ;
        }
        let c: char = s.get_char(j);
        if c == ' ' || c == '\t' || c == '\n' || c == '\r' {
            proof {
                assert(skip_ws(s@, j as int) == skip_ws(s@, j as int + 1));
            }
            j = j + 1;
        } else {
            proof {
                assert(skip_ws(s@, j as int) == j);
            }
            break ;
        }
    }
    j
}

fn scan_string_exec(s: &str, n: usize, i: usize) -> (r: Option<usize>)
    requires
        n == s@.len(),
        i <= n,
    ensures
        match r {
            Some(j) => scan_string_end(s@, i as int) == Some(j as int) && i <= j < n,
            None => scan_string_end(s@, i as int) is None,
        },
{
    let mut j: usize = i;
    loop
        invariant
            n == s@.len(),
            i <= j <= n,
            scan_string_end(s@, i as int) == scan_string_end(s@, j as int),
        decreases n - j,
    {
        if j == n {
            return None;
        }
        let c: char = s.get_char(j);
        if c == '"' {
            return Some(j);
        }
        if c == '\\' {
            return None;
        }
        j = j + 1;
    }
}

/// Recognize one book-ticker message. Yields the message exactly when
/// the text matches the tick grammar with all six required members;
/// anything else — malformed JSON, escapes, duplicates, a mistyped or
/// missing member, an oversized event time — yields nothing.
#[verifier::rlimit(100)]
pub fn parse_ticker(s: &str) -> (r: Option<BookTickerMsg>)
    ensures
        r is Some <==> spec_parse_ticker(s@) is Some,
        r is Some ==> msg_matches(r->Some_0, spec_parse_ticker(s@)->Some_0),
{
    let ghost sv = s@;
    let n: usize = s.unicode_len();
    let b: usize = skip_ws_exec(s, n, 0);
    if b == n {
        return None;
    }
    if s.get_char(b) != '{' {
        return None;
    }
    let mut symbol: Option<String> = None;
    let mut bid_price: Option<String> = None;
    let mut bid_qty: Option<String> = None;
    let mut ask_price: Option<String> = None;
    let mut ask_qty: Option<String> = None;
    let mut time: Option<u64> = None;
    let ghost mut fspec = empty_fields();
    let mut i: usize = b + 1;
    let lim: i128 = 0xffff_ffff_ffff_ffffi128;
    loop
        invariant
            n == sv.len(),
            sv == s@,
            b < n,
            sv[b as int] == '{',
            b as int == skip_ws(sv, 0),
            b + 1 <= i <= n,
            lim == 0xffff_ffff_ffff_ffffi128,
            spec_members(sv, b as int + 1, empty_fields()) == spec_members(sv, i as int, fspec),
            (match symbol {
                Some(x) => fspec.symbol == Some(x@),
                None => fspec.symbol is None,
            }),
            (match bid_price {
                Some(x) => fspec.bid_price == Some(x@),
                None => fspec.bid_price is None,
            }),
            (match bid_qty {
                Some(x) => fspec.bid_qty == Some(x@),
                None => fspec.bid_qty is None,
            }),
            (match ask_price {
                Some(x) => fspec.ask_price == Some(x@),
                None => fspec.ask_price is None,
            }),
            (match ask_qty {
                Some(x) => fspec.ask_qty == Some(x@),
                None => fspec.ask_qty is None,
            }),
            (match time {
                Some(x) => fspec.time == Some(x as int),
                None => fspec.time is None,
            }),
        decreases n - i,
    {
        let ghost fprev = fspec;
        let ks: usize = skip_ws_exec(s, n, i);
        if ks == n {
            return None;
        }
        if s.get_char(ks) != '"' {
            return None;
        }
        let kq: usize = match scan_string_exec(s, n, ks + 1) {
            Some(k) => k,
            None => {
                return None;
            },
        };
        let ghost key = sv.subrange(ks as int + 1, kq as int);
        let c: usize = skip_ws_exec(s, n, kq + 1);
        if c == n {
            return None;
        }
        if s.get_char(c) != ':' {
            return None;
        }
        let vs: usize = skip_ws_exec(s, n, c + 1);
        // Which required member, if any, does this key name?
        let key_char: Option<char> = if kq == ks + 2 {
            Some(s.get_char(ks + 1))
        } else {
            None
        };
        proof {
            reveal_strlit("s");
            reveal_strlit("b");
            reveal_strlit("B");
            reveal_strlit("a");
            reveal_strlit("A");
            reveal_strlit("T");
            if kq == ks + 2 {
                assert(key =~= seq![sv[ks as int + 1]]);
                assert(key == "s"@ <==> sv[ks as int + 1] == 's') by {
                    assert("s"@ =~= seq!['s']);
                    if sv[ks as int + 1] == 's' {
                        assert(key =~= "s"@);
                    }
                    if key == "s"@ {
                        assert(sv[ks as int + 1] == key[0]);
                    }
                }
                assert(key == "b"@ <==> sv[ks as int + 1] == 'b') by {
                    assert("b"@ =~= seq!['b']);
                    if sv[ks as int + 1] == 'b' {
                        assert(key =~= "b"@);
                    }
                    if key == "b"@ {
                        assert(sv[ks as int + 1] == key[0]);
                    }
                }
                assert(key == "B"@ <==> sv[ks as int + 1] == 'B') by {
                    assert("B"@ =~= seq!['B']);
                    if sv[ks as int + 1] == 'B' {
                        assert(key =~= "B"@);
                    }
                    if key == "B"@ {
                        assert(sv[ks as int + 1] == key[0]);
                    }
                }
                assert(key == "a"@ <==> sv[ks as int + 1] == 'a') by {
                    assert("a"@ =~= seq!['a']);
                    if sv[ks as int + 1] == 'a' {
                        assert(key =~= "a"@);
                    }
                    if key == "a"@ {
                        assert(sv[ks as int + 1] == key[0]);
                    }
                }
                assert(key == "A"@ <==> sv[ks as int + 1] == 'A') by {
                    assert("A"@ =~= seq!['A']);
                    if sv[ks as int + 1] == 'A' {
                        assert(key =~= "A"@);
                    }
                    if key == "A"@ {
                        assert(sv[ks as int + 1] == key[0]);
                    }
                }
                assert(key == "T"@ <==> sv[ks as int + 1] == 'T') by {
                    assert("T"@ =~= seq!['T']);
                    if sv[ks as int + 1] == 'T' {
                        assert(key =~= "T"@);
                    }
                    if key == "T"@ {
                        assert(sv[ks as int + 1] == key[0]);
                    }
                }
            } else {
                assert(key.len() != 1);
                assert(key != "s"@ && key != "b"@ && key != "B"@ && key != "a"@ && key != "A"@
                    && key != "T"@);
            }
        }
        let vnext: usize;
        if vs < n && s.get_char(vs) == '"' {
            // A string value.
            let vq: usize = match scan_string_exec(s, n, vs + 1) {
                Some(v) => v,
                None => {
                    return None;
                },
            };
            let ghost sval = sv.subrange(vs as int + 1, vq as int);
            match key_char {
                Some(kc) => {
                    if kc == 's' {
                        if symbol.is_some() {
                            proof {
                                assert(set_field(fprev, key, true, sval, 0) is None);
                            }
                            return None;
                        }
                        symbol = Some(s.substring_char(vs + 1, vq).to_owned());
                    } else if kc == 'b' {
                        if bid_price.is_some() {
                            proof {
                                assert(set_field(fprev, key, true, sval, 0) is None);
                            }
                            return None;
                        }
                        bid_price = Some(s.substring_char(vs + 1, vq).to_owned());
                    } else if kc == 'B' {
                        if bid_qty.is_some() {
                            proof {
                                assert(set_field(fprev, key, true, sval, 0) is None);
                            }
                            return None;
                        }
                        bid_qty = Some(s.substring_char(vs + 1, vq).to_owned());
                    } else if kc == 'a' {
                        if ask_price.is_some() {
                            proof {
                                assert(set_field(fprev, key, true, sval, 0) is None);
                            }
                            return None;
                        }
                        ask_price = Some(s.substring_char(vs + 1, vq).to_owned());
                    } else if kc == 'A' {
                        if ask_qty.is_some() {
                            proof {
                                assert(set_field(fprev, key, true, sval, 0) is None);
                            }
                            return None;
                        }
                        ask_qty = Some(s.substring_char(vs + 1, vq).to_owned());
                    } else if kc == 'T' {
                        // The event time is an integer, not a string.
                        proof {
                            assert(set_field(fprev, key, true, sval, 0) is None);
                        }
                        return None;
                    }
                },
                None => {},
            }
            proof {
                assert(set_field(fprev, key, true, sval, 0) is Some);
                fspec = set_field(fprev, key, true, sval, 0)->Some_0;
            }
            vnext = vq + 1;
        } else {
            // An unsigned-integer value.
            let (de, acc, _dlen) = scan_digits(s, n, vs, lim);
            proof {
                let sub = sv.subrange(vs as int, de as int);
                assert forall|k: int| vs <= k < de implies is_digit(#[trigger] sv[k]) by {
                    assert(sub[k - vs] == sv[k]);
                }
                lemma_scan_digits_end_at(sv, vs as int, de as int);
                crate::fixed::lemma_digits_val_nonneg(sub);
            }
            if de == vs {
                return None;
            }
            let ghost nval = digits_val(sv.subrange(vs as int, de as int));
            match key_char {
                Some(kc) => {
                    if kc == 'T' {
                        if time.is_some() {
                            proof {
                                assert(set_field(fprev, key, false, Seq::<char>::empty(), nval)
                                    is None);
                            }
                            return None;
                        }
                        if acc > lim {
                            // The event time does not fit a u64.
                            proof {
                                assert(nval > u64::MAX);
                                assert(set_field(fprev, key, false, Seq::<char>::empty(), nval)
                                    is None);
                            }
                            return None;
                        }
                        time = Some(acc as u64);
                    } else if kc == 's' || kc == 'b' || kc == 'B' || kc == 'a' || kc == 'A' {
                        // A required string member with a number value.
                        proof {
                            assert(set_field(fprev, key, false, Seq::<char>::empty(), nval)
                                is None);
                        }
                        return None;
                    }
                },
                None => {},
            }
            proof {
                assert(set_field(fprev, key, false, Seq::<char>::empty(), nval) is Some);
                fspec = set_field(fprev, key, false, Seq::<char>::empty(), nval)->Some_0;
            }
            vnext = de;
        }
        proof {
            assert(spec_members(sv, i as int, fprev) == spec_member_tail(
                sv,
                vnext as int,
                fspec,
            ));
        }
        let d: usize = skip_ws_exec(s, n, vnext);
        if d == n {
            return None;
        }
        let dc: char = s.get_char(d);
        if dc == ',' {
            proof {
                assert(spec_member_tail(sv, vnext as int, fspec) == spec_members(
                    sv,
                    d as int + 1,
                    fspec,
                ));
            }
            i = d + 1;
        } else if dc == '}' {
            let e: usize = skip_ws_exec(s, n, d + 1);
            proof {
                assert(spec_member_tail(sv, vnext as int, fspec) == Some((fspec, d as int + 1)));
                assert(spec_members(sv, b as int + 1, empty_fields()) == Some(
                    (fspec, d as int + 1),
                ));
            }
            if e != n {
                return None;
            }
            let sym = match symbol {
                Some(x) => x,
                None => {
                    return None;
                },
            };
            let bp = match bid_price {
                Some(x) => x,
                None => {
                    return None;
                },
            };
            let bq = match bid_qty {
                Some(x) => x,
                None => {
                    return None;
                },
            };
            let ap = match ask_price {
                Some(x) => x,
                None => {
                    return None;
                },
            };
            let aq = match ask_qty {
                Some(x) => x,
                None => {
                    return None;
                },
            };
            let tm = match time {
                Some(x) => x,
                None => {
                    return None;
                },
            };
            return Some(
                BookTickerMsg {
                    symbol: sym,
                    bid_price: bp,
                    bid_qty: bq,
                    ask_price: ap,
                    ask_qty: aq,
                    time: tm,
                },
            );
        } else {
            return None;
        }
    }
}

/// A decimal string carrying a strictly positive representable value.
pub open spec fn scaled_pos(s: Seq<char>) -> bool {
    match spec_parse_scaled(s) {
        Some(v) => v > 0,
        None => false,
    }
}

/// The validation every tick faces: all four numeric fields must parse
/// as plain decimals and be strictly positive.
pub open spec fn tick_accepted(m: BookTickerMsg) -> bool {
    &&& scaled_pos(m.bid_price@)
    &&& scaled_pos(m.ask_price@)
    &&& scaled_pos(m.bid_qty@)
    &&& scaled_pos(m.ask_qty@)
}

/// Convert a parsed tick into the engine's quote, stamped with the
/// venue's name and the receive time. Yields the quote exactly when the
/// tick passes validation; a malformed or non-positive field drops the
/// tick so that no zero or garbage quote travels downstream.
pub fn quote_from_ticker(m: &BookTickerMsg, venue: String, timestamp: u64) -> (r: Option<Quote>)
    ensures
        r is Some <==> tick_accepted(*m),
        r is Some ==> ({
            let q = r->Some_0;
            &&& q.symbol@ == m.symbol@
            &&& Some(q.bid) == spec_parse_scaled(m.bid_price@)
            &&& Some(q.ask) == spec_parse_scaled(m.ask_price@)
            &&& Some(q.bid_size) == spec_parse_scaled(m.bid_qty@)
            &&& Some(q.ask_size) == spec_parse_scaled(m.ask_qty@)
            &&& q.bid > 0 && q.ask > 0 && q.bid_size > 0 && q.ask_size > 0
            &&& q.venue@ == venue@
            &&& q.timestamp == timestamp
        }),
{
    let bid = match parse_scaled(m.bid_price.as_str()) {
        Some(v) => v,
        None => {
            return None;
        },
    };
    let ask = match parse_scaled(m.ask_price.as_str()) {
        Some(v) => v,
        None => {
            return None;
        },
    };
    let bid_size = match parse_scaled(m.bid_qty.as_str()) {
        Some(v) => v,
        None => {
            return None;
        },
    };
    let ask_size = match parse_scaled(m.ask_qty.as_str()) {
        Some(v) => v,
        None => {
            return None;
        },
    };
    if bid <= 0 || ask <= 0 || bid_size <= 0 || ask_size <= 0 {
        return None;
    }
    Some(
        Quote {
            symbol: m.symbol.clone(),
            bid,
            ask,
            bid_size,
            ask_size,
            venue,
            timestamp,
        },
    )
}

} // verus!
