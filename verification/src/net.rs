//! MAC addresses and Wake-on-LAN magic packets.
//!
//! A hardware address is six octets, written as six colon-separated
//! hexadecimal segments. A magic packet is the fixed 102-byte payload that
//! wakes the machine owning a given address: six `0xff` bytes followed by
//! the address repeated sixteen times.

use vstd::prelude::*;
use vstd::string::*;

verus! {

/// Why a MAC-address string was rejected.
#[derive(Clone, Copy, PartialEq, Eq, Structural, Debug)]
pub enum ParseError {
    /// The string does not consist of exactly six colon-separated segments.
    WrongOctetCount,
    /// Some segment is not a one- or two-digit hexadecimal number.
    InvalidHex,
}

/// A character that may appear in a hexadecimal segment: `0-9`, `a-f`, `A-F`.
pub open spec fn is_hex_digit(c: char) -> bool {
    (48 <= c as u32 && c as u32 <= 57) || (97 <= c as u32 && c as u32 <= 102) || (65 <= c as u32
        && c as u32 <= 70)
}

/// Numeric value of a hexadecimal digit.
pub open spec fn hex_digit_value(c: char) -> u8
    recommends
        is_hex_digit(c),
{
    if 48 <= c as u32 && c as u32 <= 57 {
        (c as u32 - 48) as u8
    } else if 97 <= c as u32 && c as u32 <= 102 {
        (c as u32 - 87) as u8
    } else {
        (c as u32 - 55) as u8
    }
}

/// The segments of `s` between colons, in order. As with `str::split`, the
/// empty string yields one empty segment, and every colon ends a segment,
/// so `n` colons always yield `n + 1` segments.
pub open spec fn split_colon(s: Seq<char>) -> Seq<Seq<char>>
    decreases s.len(),
{
    if s.len() == 0 {
        seq![Seq::<char>::empty()]
    } else if s[0] == ':' {
        seq![Seq::<char>::empty()] + split_colon(s.drop_first())
    } else {
        let rest = split_colon(s.drop_first());
        seq![seq![s[0]] + rest[0]] + rest.drop_first()
    }
}

pub proof fn lemma_split_colon_len(s: Seq<char>)
    ensures
        split_colon(s).len() >= 1,
    decreases s.len(),
{
    if s.len() != 0 {
        lemma_split_colon_len(s.drop_first());
    }
}

/// Appending one character extends the split: a colon starts a fresh empty
/// segment, any other character is appended to the last segment.
pub proof fn lemma_split_colon_push(s: Seq<char>, c: char)
    ensures
        c == ':' ==> split_colon(s.push(c)) == split_colon(s).push(Seq::<char>::empty()),
        c != ':' ==> split_colon(s.push(c)) == split_colon(s).update(
            split_colon(s).len() - 1,
            split_colon(s).last().push(c),
        ),
    decreases s.len(),
{
    lemma_split_colon_len(s);
    if s.len() == 0 {
        assert(s.push(c) =~= seq![c]);
        assert(seq![c].drop_first() =~= Seq::<char>::empty());
        assert(seq![c][0] == c);
        assert(split_colon(Seq::<char>::empty()) == seq![Seq::<char>::empty()]);
        if c == ':' {
            assert(split_colon(seq![c]) == seq![Seq::<char>::empty()] + split_colon(
                seq![c].drop_first(),
            ));
            assert(split_colon(s.push(c)) =~~= split_colon(s).push(Seq::<char>::empty()));
        } else {
            assert(seq![c] + split_colon(Seq::<char>::empty())[0] =~= split_colon(
                s,
            ).last().push(c));
            assert(split_colon(s.push(c)) =~~= split_colon(s).update(
                0,
                split_colon(s).last().push(c),
            ));
        }
    } else {
        let d = s.drop_first();
        lemma_split_colon_push(d, c);
        lemma_split_colon_len(d);
        assert(s.push(c)[0] == s[0]);
        assert(s.push(c).drop_first() =~= d.push(c));
        if s[0] == ':' {
            if c == ':' {
                assert(split_colon(s.push(c)) =~~= split_colon(s).push(Seq::<char>::empty()));
            } else {
                assert(split_colon(s.push(c)) =~~= split_colon(s).update(
                    split_colon(s).len() - 1,
                    split_colon(s).last().push(c),
                ));
            }
        } else {
            let rest = split_colon(d);
            if c == ':' {
                assert(split_colon(s.push(c)) =~~= split_colon(s).push(Seq::<char>::empty()));
            } else {
                if rest.len() == 1 {
                    assert(seq![s[0]] + rest[0].push(c) =~= (seq![s[0]] + rest[0]).push(c));
                }
                assert(split_colon(s.push(c)) =~~= split_colon(s).update(
                    split_colon(s).len() - 1,
                    split_colon(s).last().push(c),
                ));
            }
        }
    }
}

/// A valid segment: one or two hexadecimal digits.
pub open spec fn is_hex_seg(seg: Seq<char>) -> bool {
    (seg.len() == 1 || seg.len() == 2) && (forall|i: int|
        0 <= i < seg.len() ==> is_hex_digit(#[trigger] seg[i]))
}

/// The octet value of a one- or two-digit hexadecimal segment.
pub open spec fn seg_value(seg: Seq<char>) -> u8
    recommends
        is_hex_seg(seg),
{
    if seg.len() == 1 {
        hex_digit_value(seg[0])
    } else {
        (hex_digit_value(seg[0]) * 16 + hex_digit_value(seg[1])) as u8
    }
}

/// What parsing a MAC-address string yields: the six octet values, or the
/// first applicable error. The segment count is judged before the segments'
/// contents.
pub open spec fn spec_parse_mac(s: Seq<char>) -> Result<Seq<u8>, ParseError> {
    let segs = split_colon(s);
    if segs.len() != 6 {
        Err(ParseError::WrongOctetCount)
    } else if exists|i: int| 0 <= i < 6 && !is_hex_seg(#[trigger] segs[i]) {
        Err(ParseError::InvalidHex)
    } else {
        Ok(Seq::new(6, |i: int| seg_value(segs[i])))
    }
}

/// The value of `c` as a hexadecimal digit, or `None` if it is not one.
fn hex_digit_of(c: char) -> (r: Option<u8>)
    ensures
        is_hex_digit(c) ==> r == Some(hex_digit_value(c)),
        !is_hex_digit(c) ==> r is None,
{
    let u = c as u32;
    if 48 <= u && u <= 57 {
        Some((u - 48) as u8)
    } else if 97 <= u && u <= 102 {
        Some((u - 87) as u8)
    } else if 65 <= u && u <= 70 {
        Some((u - 55) as u8)
    } else {
        None
    }
}

/// A six-octet hardware (MAC) address. Immutable once constructed; its view
/// is the sequence of its six octet values.
#[derive(Debug)]
pub struct MacAddress {
    octets: Vec<u8>,
}

impl View for MacAddress {
    type V = Seq<u8>;

    closed spec fn view(&self) -> Seq<u8> {
        self.octets@
    }
}

impl MacAddress {
    #[verifier::type_invariant]
    spec fn wf(&self) -> bool {
        self.octets@.len() == 6
    }

    /// Splits `text` on colons and reads each segment as a hexadecimal
    /// octet. Rejects anything but exactly six segments of one or two
    /// hexadecimal digits each, upper or lower case.
    pub fn parse(text: &str) -> (r: Result<MacAddress, ParseError>)
        ensures
            match r {
                Ok(m) => spec_parse_mac(text@) == Ok::<Seq<u8>, ParseError>(m@),
                Err(e) => spec_parse_mac(text@) == Err::<Seq<u8>, ParseError>(e),
            },
    {
        let n = text.unicode_len();
        let mut count: usize = 0;  // completed segments
        let mut octets: Vec<u8> = Vec::new();  // values of the completed segments
        let mut bad = false;  // some completed segment was invalid
        let mut cur_len: usize = 0;
        let mut cur_val: u8 = 0;
        let mut cur_ok = true;  // the segment in progress is still valid
        let mut i: usize = 0;
        while i < n
            invariant
                i <= n,
                n == text@.len(),
                count <= i,
                split_colon(text@.subrange(0, i as int)).len() == count + 1,
                cur_ok <==> (split_colon(text@.subrange(0, i as int)).last().len() <= 2 && (forall|
                    j: int,
                |
                    0 <= j < split_colon(text@.subrange(0, i as int)).last().len()
                        ==> is_hex_digit(
                        #[trigger] split_colon(text@.subrange(0, i as int)).last()[j],
                    ))),
                cur_ok ==> cur_len == split_colon(text@.subrange(0, i as int)).last().len(),
                cur_ok && cur_len >= 1 ==> cur_val == seg_value(
                    split_colon(text@.subrange(0, i as int)).last(),
                ),
                cur_len == 0 ==> cur_val == 0,
                cur_len == 1 ==> cur_val <= 15,
                bad <==> (exists|j: int|
                    0 <= j < count && !is_hex_seg(
                        #[trigger] split_colon(text@.subrange(0, i as int))[j],
                    )),
                !bad && count <= 6 ==> octets@.len() == count,
                !bad && count <= 6 ==> (forall|j: int|
                    0 <= j < count ==> octets@[j] == seg_value(
                        #[trigger] split_colon(text@.subrange(0, i as int))[j],
                    )),
            decreases n - i,
        {
            let c = text.get_char(i);
            let ghost pre = text@.subrange(0, i as int);
            let ghost sp = split_colon(pre);
            let ghost sp2 = split_colon(text@.subrange(0, i as int + 1));
            let ghost cur = sp.last();
            let ghost count0 = count as int;
            proof {
                lemma_split_colon_push(pre, c);
                lemma_split_colon_len(pre);
                assert(pre.push(c) =~= text@.subrange(0, i as int + 1));
            }
            if c == ':' {
                proof {
                    assert(sp2 == sp.push(Seq::<char>::empty()));
                    assert(sp2[count0] == cur);
                    assert(forall|j: int| 0 <= j <= count0 ==> sp2[j] == sp[j]);
                    assert(sp2.last() =~= Seq::<char>::empty());
                }
                if cur_ok && cur_len >= 1 {
                    proof {
                        assert(is_hex_seg(cur));
                    }
                    if count < 6 {
                        octets.push(cur_val);
                    }
                } else {
                    proof {
                        if cur_ok {
                            assert(cur.len() == 0);
                        }
                        assert(!is_hex_seg(cur));
                    }
                    bad = true;
                }
                count = count + 1;
                cur_len = 0;
                cur_val = 0;
                cur_ok = true;
            } else {
                proof {
                    assert(sp2 == sp.update(sp.len() - 1, cur.push(c)));
                    assert(sp2.len() == sp.len());
                    assert(sp2.last() == cur.push(c));
                    assert(forall|j: int| 0 <= j < count0 ==> sp2[j] == sp[j]);
                    assert(cur.push(c)[cur.len() as int] == c);
                    assert(forall|j: int| 0 <= j < cur.len() ==> cur.push(c)[j] == cur[j]);
                }
                match hex_digit_of(c) {
                    Some(v) => {
                        if cur_len >= 2 {
                            proof {
                                if cur_ok {
                                    assert(cur.push(c).len() > 2);
                                }
                            }
                            cur_ok = false;
                        } else {
                            cur_val = cur_val * 16 + v;
                            cur_len = cur_len + 1;
                            proof {
                                if cur.len() == 0 {
                                    assert(cur.push(c) =~= seq![c]);
                                    assert(seg_value(cur.push(c)) == hex_digit_value(c));
                                }
                            }
                        }
                    },
                    None => {
                        cur_ok = false;
                        proof {
                            assert(!is_hex_digit(cur.push(c)[cur.len() as int]));
                        }
                    },
                }
            }
            i = i + 1;
        }
        proof {
            assert(text@.subrange(0, n as int) =~= text@);
        }
        if count != 5 {
            return Err(ParseError::WrongOctetCount);
        }
        if bad || !(cur_ok && cur_len >= 1) {
            return Err(ParseError::InvalidHex);
        }
        octets.push(cur_val);
        proof {
            let segs = split_colon(text@);
            assert(octets@ =~= Seq::new(6, |j: int| seg_value(segs[j])));
        }
        Ok(MacAddress { octets })
    }

    /// The octet at position `index`, counted from the left of the textual
    /// form.
    pub fn octet(&self, index: usize) -> (r: u8)
        requires
            index < 6,
        ensures
            r == self@[index as int],
    {
        proof {
            use_type_invariant(self);
        }
        self.octets[index]
    }

    /// All six octets, leftmost first.
    pub fn octets(&self) -> (r: Vec<u8>)
        ensures
            r@ == self@,
    {
        proof {
            use_type_invariant(self);
        }
        let mut r: Vec<u8> = Vec::new();
        let mut i: usize = 0;
        while i < 6
            invariant
                i <= 6,
                self@.len() == 6,
                r@ =~= self@.subrange(0, i as int),
            decreases 6 - i,
        {
            r.push(self.octets[i]);
            proof {
                assert(r@ =~= self@.subrange(0, i + 1 as int));
            }
            i = i + 1;
        }
        proof {
            assert(r@ =~= self@);
        }
        r
    }
}

/// The lowercase hexadecimal digit for a value below sixteen.
pub open spec fn hex_char_of(v: u8) -> char
    recommends
        v < 16,
{
    if v == 0 {
        '0'
    } else if v == 1 {
        '1'
    } else if v == 2 {
        '2'
    } else if v == 3 {
        '3'
    } else if v == 4 {
        '4'
    } else if v == 5 {
        '5'
    } else if v == 6 {
        '6'
    } else if v == 7 {
        '7'
    } else if v == 8 {
        '8'
    } else if v == 9 {
        '9'
    } else if v == 10 {
        'a'
    } else if v == 11 {
        'b'
    } else if v == 12 {
        'c'
    } else if v == 13 {
        'd'
    } else if v == 14 {
        'e'
    } else {
        'f'
    }
}

/// The two lowercase hexadecimal digits of one octet.
pub open spec fn octet_chars(v: u8) -> Seq<char> {
    seq![hex_char_of(v / 16), hex_char_of(v % 16)]
}

/// The canonical textual form of six octets: six colon-separated lowercase
/// two-digit hexadecimal segments.
pub open spec fn spec_format_mac(b: Seq<u8>) -> Seq<char>
    recommends
        b.len() == 6,
{
    octet_chars(b[0]) + seq![':'] + octet_chars(b[1]) + seq![':'] + octet_chars(b[2]) + seq![':']
        + octet_chars(b[3]) + seq![':'] + octet_chars(b[4]) + seq![':'] + octet_chars(b[5])
}

proof fn lemma_hex_char_of_value(v: u8)
    requires
        v < 16,
    ensures
        is_hex_digit(hex_char_of(v)),
        hex_digit_value(hex_char_of(v)) == v,
        hex_char_of(v) != ':',
{
}

proof fn lemma_octet_chars_value(v: u8)
    ensures
        is_hex_seg(octet_chars(v)),
        seg_value(octet_chars(v)) == v,
        forall|i: int| 0 <= i < octet_chars(v).len() ==> octet_chars(v)[i] != ':',
{
    lemma_hex_char_of_value(v / 16);
    lemma_hex_char_of_value(v % 16);
    vstd::arithmetic::div_mod::lemma_fundamental_div_mod(v as int, 16);
    assert(octet_chars(v)[0] == hex_char_of(v / 16));
    assert(octet_chars(v)[1] == hex_char_of(v % 16));
}

proof fn lemma_split_colon_no_colon(a: Seq<char>)
    requires
        forall|i: int| 0 <= i < a.len() ==> a[i] != ':',
    ensures
        split_colon(a) == seq![a],
    decreases a.len(),
{
    if a.len() == 0 {
        assert(split_colon(a) =~~= seq![a]);
    } else {
        lemma_split_colon_no_colon(a.drop_first());
        assert(seq![a[0]] + a.drop_first() =~= a);
        assert(split_colon(a) =~~= seq![a]);
    }
}

proof fn lemma_split_colon_concat(a: Seq<char>, rest: Seq<char>)
    requires
        forall|i: int| 0 <= i < a.len() ==> a[i] != ':',
    ensures
        split_colon(a + seq![':'] + rest) == seq![a] + split_colon(rest),
    decreases a.len(),
{
    lemma_split_colon_len(rest);
    if a.len() == 0 {
        let s = a + seq![':'] + rest;
        assert(s[0] == ':');
        assert(s.drop_first() =~= rest);
        assert(split_colon(s) =~~= seq![a] + split_colon(rest));
    } else {
        lemma_split_colon_concat(a.drop_first(), rest);
        let s = a + seq![':'] + rest;
        assert(s[0] == a[0]);
        assert(s.drop_first() =~= a.drop_first() + seq![':'] + rest);
        assert(seq![a[0]] + a.drop_first() =~= a);
        assert(split_colon(s) =~~= seq![a] + split_colon(rest));
    }
}

/// Law: formatting any six octets and parsing the result returns exactly
/// those six octets — the canonical textual form round-trips.
pub proof fn lemma_format_parse_round_trip(b: Seq<u8>)
    requires
        b.len() == 6,
    ensures
        spec_parse_mac(spec_format_mac(b)) == Ok::<Seq<u8>, ParseError>(b),
{
    let o0 = octet_chars(b[0]);
    let o1 = octet_chars(b[1]);
    let o2 = octet_chars(b[2]);
    let o3 = octet_chars(b[3]);
    let o4 = octet_chars(b[4]);
    let o5 = octet_chars(b[5]);
    lemma_octet_chars_value(b[0]);
    lemma_octet_chars_value(b[1]);
    lemma_octet_chars_value(b[2]);
    lemma_octet_chars_value(b[3]);
    lemma_octet_chars_value(b[4]);
    lemma_octet_chars_value(b[5]);
    let t4 = o4 + seq![':'] + o5;
    let t3 = o3 + seq![':'] + t4;
    let t2 = o2 + seq![':'] + t3;
    let t1 = o1 + seq![':'] + t2;
    let t0 = o0 + seq![':'] + t1;
    assert(spec_format_mac(b) =~= t0);
    lemma_split_colon_no_colon(o5);
    lemma_split_colon_concat(o4, o5);
    assert(t4 =~= o4 + seq![':'] + o5);
    lemma_split_colon_concat(o3, t4);
    lemma_split_colon_concat(o2, t3);
    lemma_split_colon_concat(o1, t2);
    lemma_split_colon_concat(o0, t1);
    let segs = split_colon(spec_format_mac(b));
    assert(segs =~~= seq![o0, o1, o2, o3, o4, o5]);
    assert(forall|i: int| 0 <= i < 6 ==> is_hex_seg(#[trigger] segs[i])) by {
        assert(segs[0] == o0);
        assert(segs[1] == o1);
        assert(segs[2] == o2);
        assert(segs[3] == o3);
        assert(segs[4] == o4);
        assert(segs[5] == o5);
    }
    assert(Seq::new(6, |i: int| seg_value(segs[i])) =~= b);
}

/// A one-character string slice holding the lowercase hexadecimal digit
/// for a value below sixteen.
fn hex_char_str(v: u8) -> (r: &'static str)
    requires
        v < 16,
    ensures
        r@ == seq![hex_char_of(v)],
{
    proof {
        reveal_strlit("0");
        reveal_strlit("1");
        reveal_strlit("2");
        reveal_strlit("3");
        reveal_strlit("4");
        reveal_strlit("5");
        reveal_strlit("6");
        reveal_strlit("7");
        reveal_strlit("8");
        reveal_strlit("9");
        reveal_strlit("a");
        reveal_strlit("b");
        reveal_strlit("c");
        reveal_strlit("d");
        reveal_strlit("e");
        reveal_strlit("f");
    }
    let r = if v == 0 {
        "0"
    } else if v == 1 {
        "1"
    } else if v == 2 {
        "2"
    } else if v == 3 {
        "3"
    } else if v == 4 {
        "4"
    } else if v == 5 {
        "5"
    } else if v == 6 {
        "6"
    } else if v == 7 {
        "7"
    } else if v == 8 {
        "8"
    } else if v == 9 {
        "9"
    } else if v == 10 {
        "a"
    } else if v == 11 {
        "b"
    } else if v == 12 {
        "c"
    } else if v == 13 {
        "d"
    } else if v == 14 {
        "e"
    } else {
        "f"
    };
    proof {
        assert(r@ =~= seq![hex_char_of(v)]);
    }
    r
}

impl MacAddress {
    /// The canonical textual form: six colon-separated lowercase two-digit
    /// hexadecimal segments.
    pub fn to_text(&self) -> (r: String)
        ensures
            r@ == spec_format_mac(self@),
    {
        proof {
            use_type_invariant(self);
        }
        let mut out = String::new();
        let mut i: usize = 0;
        while i < 6
            invariant
                i <= 6,
                self@.len() == 6,
                out@ =~= spec_format_prefix(self@, i as int),
            decreases 6 - i,
        {
            if i > 0 {
                out.append(":");
                proof {
                    reveal_strlit(":");
                    assert(":"@ =~= seq![':']);
                }
            }
            let v = self.octet(i);
            out.append(hex_char_str(v / 16));
            out.append(hex_char_str(v % 16));
            proof {
                assert(out@ =~= spec_format_prefix(self@, i as int + 1));
            }
            i = i + 1;
        }
        proof {
            reveal_with_fuel(spec_format_prefix, 7);
            assert(spec_format_prefix(self@, 6) =~= spec_format_mac(self@));
        }
        out
    }
}

/// The textual form of the first `n` octets of `b`, colons included.
pub open spec fn spec_format_prefix(b: Seq<u8>, n: int) -> Seq<char>
    recommends
        0 <= n <= b.len(),
    decreases n,
{
    if n <= 0 {
        Seq::<char>::empty()
    } else if n == 1 {
        octet_chars(b[0])
    } else {
        spec_format_prefix(b, n - 1) + seq![':'] + octet_chars(b[n - 1])
    }
}

impl PartialEq for MacAddress {
    /// Two addresses are equal exactly when their six octets are equal.
    fn eq(&self, other: &MacAddress) -> (r: bool) {
        proof {
            use_type_invariant(self);
            use_type_invariant(other);
        }
        let r = self.octets[0] == other.octets[0] && self.octets[1] == other.octets[1]
            && self.octets[2] == other.octets[2] && self.octets[3] == other.octets[3]
            && self.octets[4] == other.octets[4] && self.octets[5] == other.octets[5];
        proof {
            if r {
                assert(self@ =~= other@);
            }
        }
        r
    }
}

impl vstd::std_specs::cmp::PartialEqSpecImpl for MacAddress {
    open spec fn obeys_eq_spec() -> bool {
        true
    }

    open spec fn eq_spec(&self, other: &MacAddress) -> bool {
        self@ == other@
    }
}

impl core::str::FromStr for MacAddress {
    type Err = ParseError;

    fn from_str(s: &str) -> Result<MacAddress, ParseError> {
        MacAddress::parse(s)
    }
}

/// The bytes of the Wake-on-LAN payload for the six-octet address `mac`:
/// six `0xff` bytes, then the address repeated sixteen times.
pub open spec fn spec_magic_packet(mac: Seq<u8>) -> Seq<u8>
    recommends
        mac.len() == 6,
{
    Seq::new(102, |i: int| if i < 6 { 0xffu8 } else { mac[(i - 6) % 6] })
}

/// Law: the packet layout. The payload is 102 bytes; each of the sixteen
/// six-byte repetitions carries the address unchanged.
pub proof fn lemma_magic_packet_layout(mac: Seq<u8>, k: int, j: int)
    requires
        mac.len() == 6,
        0 <= k < 16,
        0 <= j < 6,
    ensures
        spec_magic_packet(mac).len() == 102,
        spec_magic_packet(mac)[6 + 6 * k + j] == mac[j],
{
    vstd::arithmetic::div_mod::lemma_mod_multiples_vanish(k, j, 6);
    vstd::arithmetic::div_mod::lemma_small_mod(j as nat, 6);
}

/// A Wake-on-LAN magic packet; its view is its 102-byte payload.
#[derive(Debug)]
pub struct MagicPacket {
    data: Vec<u8>,
}

impl View for MagicPacket {
    type V = Seq<u8>;

    closed spec fn view(&self) -> Seq<u8> {
        self.data@
    }
}

impl MagicPacket {
    #[verifier::type_invariant]
    spec fn wf(&self) -> bool {
        self.data@.len() == 102
    }

    /// Builds the packet that wakes `mac_address`: exactly 102 bytes, the
    /// first six all `0xff`, the rest the address repeated sixteen times.
    pub fn for_mac_address(mac_address: &MacAddress) -> (r: MagicPacket)
        ensures
            r@ == spec_magic_packet(mac_address@),
            r@.len() == 102,
            forall|i: int| 0 <= i < 6 ==> r@[i] == 0xff,
    {
        proof {
            use_type_invariant(mac_address);
        }
        let mut data: Vec<u8> = Vec::new();
        let mut i: usize = 0;
        while i < 6
            invariant
                i <= 6,
                data@.len() == i,
                mac_address@.len() == 6,
                forall|t: int|
                    0 <= t < i ==> #[trigger] data@[t] == spec_magic_packet(mac_address@)[t],
            decreases 6 - i,
        {
            data.push(0xff);
            i = i + 1;
        }
        let mut k: usize = 0;
        while k < 16
            invariant
                k <= 16,
                data@.len() == 6 + 6 * k,
                mac_address@.len() == 6,
                forall|t: int|
                    0 <= t < data@.len() ==> #[trigger] data@[t] == spec_magic_packet(
                        mac_address@,
                    )[t],
            decreases 16 - k,
        {
            let mut j: usize = 0;
            while j < 6
                invariant
                    j <= 6,
                    k < 16,
                    data@.len() == 6 + 6 * k + j,
                    mac_address@.len() == 6,
                    forall|t: int|
                        0 <= t < data@.len() ==> #[trigger] data@[t] == spec_magic_packet(
                            mac_address@,
                        )[t],
                decreases 6 - j,
            {
                let b = mac_address.octet(j);
                proof {
                    vstd::arithmetic::div_mod::lemma_mod_multiples_vanish(
                        k as int,
                        j as int,
                        6,
                    );
                    vstd::arithmetic::div_mod::lemma_small_mod(j as nat, 6);
                    assert((6 * (k as int) + (j as int)) % 6 == j as int);
                }
                data.push(b);
                j = j + 1;
            }
            k = k + 1;
        }
        proof {
            assert(data@ =~= spec_magic_packet(mac_address@));
        }
        MagicPacket { data }
    }

    /// The payload as it goes on the wire.
    pub fn bytes(&self) -> (r: &[u8])
        ensures
            r@ == self@,
            r@.len() == 102,
    {
        proof {
            use_type_invariant(self);
        }
        self.data.as_slice()
    }
}

} // verus!
