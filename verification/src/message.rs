//! The signaling-message envelope: a closed tagged union and its canonical
//! wire form, a JSON object with a lowercase `type` tag. Both directions of
//! the codec are specified against one mathematical grammar, so a frame
//! decodes exactly when it is the canonical encoding of some message.
use vstd::prelude::*;

verus! {

/// A typed signaling message. Payload fields carry the UTF-8 bytes of the
/// corresponding JSON string values.
#[derive(Debug, PartialEq, Eq)]
pub enum SignalingMessage {
    /// One side's half of the negotiation handshake.
    Offer { sdp: Vec<u8> },
    /// The other side's half of the negotiation handshake.
    Answer { sdp: Vec<u8> },
    /// A connectivity-path descriptor.
    Candidate { candidate: Vec<u8>, sdp_mid: Option<Vec<u8>>, sdp_mline_index: Option<u32> },
    /// An inline binary payload, still in its textual transfer form.
    Image { data: Vec<u8> },
    /// A control kind handled locally rather than relayed.
    TriggerImageCapture,
}

/// Mathematical image of a message.
#[verifier::ext_equal]
pub enum MessageModel {
    Offer { sdp: Seq<u8> },
    Answer { sdp: Seq<u8> },
    Candidate { candidate: Seq<u8>, sdp_mid: Option<Seq<u8>>, sdp_mline_index: Option<u32> },
    Image { data: Seq<u8> },
    TriggerImageCapture,
}

impl View for SignalingMessage {
    type V = MessageModel;

    open spec fn view(&self) -> MessageModel {
        match self {
            SignalingMessage::Offer { sdp } => MessageModel::Offer { sdp: sdp@ },
            SignalingMessage::Answer { sdp } => MessageModel::Answer { sdp: sdp@ },
            SignalingMessage::Candidate { candidate, sdp_mid, sdp_mline_index } => (
            MessageModel::Candidate {
                candidate: candidate@,
                sdp_mid: match sdp_mid {
                    Some(m) => Some(m@),
                    None => None,
                },
                sdp_mline_index: *sdp_mline_index,
            }),
            SignalingMessage::Image { data } => MessageModel::Image { data: data@ },
            SignalingMessage::TriggerImageCapture => MessageModel::TriggerImageCapture,
        }
    }
}

// ---------------------------------------------------------------------------
// String escaping.
// ---------------------------------------------------------------------------
/// A byte that passes through a JSON string unescaped.
pub open spec fn is_plain(b: u8) -> bool {
    b >= 0x20 && b != 0x22 && b != 0x5c
}

/// The lowercase hex digit of a value below sixteen.
pub open spec fn hex_digit(n: u8) -> u8 {
    if n < 10 {
        (0x30 + n) as u8
    } else {
        (0x57 + n) as u8
    }
}

/// How one byte appears inside a canonical JSON string.
pub open spec fn esc_byte(b: u8) -> Seq<u8> {
    if b == 0x22 {
        seq![0x5cu8, 0x22u8]
    } else if b == 0x5c {
        seq![0x5cu8, 0x5cu8]
    } else if b == 0x0a {
        seq![0x5cu8, 0x6eu8]
    } else if b == 0x0d {
        seq![0x5cu8, 0x72u8]
    } else if b == 0x09 {
        seq![0x5cu8, 0x74u8]
    } else if b < 0x20 {
        seq![0x5cu8, 0x75u8, 0x30u8, 0x30u8, hex_digit(b / 16), hex_digit(b % 16)]
    } else {
        seq![b]
    }
}

/// The canonical escaping of a whole payload.
pub open spec fn esc(s: Seq<u8>) -> Seq<u8>
    decreases s.len(),
{
    if s.len() == 0 {
        Seq::empty()
    } else {
        esc(s.drop_last()) + esc_byte(s.last())
    }
}

/// `esc` can also be peeled from the front.
pub proof fn lemma_esc_first(s: Seq<u8>)
    requires
        s.len() > 0,
    ensures
        esc(s) == esc_byte(s[0]) + esc(s.drop_first()),
    decreases s.len(),
{
    if s.len() == 1 {
        assert(s.drop_last() =~= Seq::<u8>::empty());
        assert(s.drop_first() =~= Seq::<u8>::empty());
        assert(esc(s) =~= esc_byte(s[0]) + esc(s.drop_first()));
    } else {
        let dl = s.drop_last();
        lemma_esc_first(dl);
        assert(s.drop_first().drop_last() =~= dl.drop_first());
        assert(s.drop_first().last() == s.last());
        assert(esc(s.drop_first()) == esc(dl.drop_first()) + esc_byte(s.last()));
        assert(dl[0] == s[0]);
        assert((esc_byte(s[0]) + esc(dl.drop_first())) + esc_byte(s.last()) =~= esc_byte(s[0]) + (
        esc(dl.drop_first()) + esc_byte(s.last())));
    }
}

/// A payload of plain bytes is its own escaping.
pub proof fn lemma_esc_plain(s: Seq<u8>)
    requires
        forall|i: int| 0 <= i < s.len() ==> is_plain(#[trigger] s[i]),
    ensures
        esc(s) == s,
    decreases s.len(),
{
    if s.len() > 0 {
        let dl = s.drop_last();
        assert(forall|i: int| 0 <= i < dl.len() ==> is_plain(#[trigger] dl[i]));
        lemma_esc_plain(dl);
        assert(is_plain(s.last()));
        assert(esc_byte(s.last()) =~= seq![s.last()]);
        assert(dl + seq![s.last()] =~= s);
    }
}

// ---------------------------------------------------------------------------
// Decimal numbers.
// ---------------------------------------------------------------------------
/// An ASCII decimal digit.
pub open spec fn is_digit(b: u8) -> bool {
    0x30 <= b <= 0x39
}

/// The canonical decimal form of a number, most significant digit first.
pub open spec fn dec_rep(n: u32) -> Seq<u8>
    decreases n,
{
    if n < 10 {
        seq![(0x30 + n) as u8]
    } else {
        dec_rep(n / 10).push((0x30 + n % 10) as u8)
    }
}

/// How many leading bytes of the input are digits.
pub open spec fn digit_run(f: Seq<u8>) -> int
    decreases f.len(),
{
    if f.len() == 0 || !is_digit(f[0]) {
        0
    } else {
        1 + digit_run(f.drop_first())
    }
}

/// The value of a digit string.
pub open spec fn digits_val(ds: Seq<u8>) -> int
    decreases ds.len(),
{
    if ds.len() == 0 {
        0
    } else {
        digits_val(ds.drop_last()) * 10 + (ds.last() - 0x30)
    }
}

/// Powers of ten.
pub open spec fn pow10(k: int) -> int
    decreases k,
{
    if k <= 0 {
        1
    } else {
        10 * pow10(k - 1)
    }
}

/// Parsing a decimal number: take the whole digit run, reject an empty or
/// overlong run or a value beyond `u32`, and leave the rest.
pub open spec fn parse_u32(f: Seq<u8>) -> Option<(u32, Seq<u8>)> {
    let k = digit_run(f);
    if k == 0 || k > 10 {
        None
    } else {
        let v = digits_val(f.take(k));
        if v > u32::MAX {
            None
        } else {
            Some((v as u32, f.skip(k)))
        }
    }
}

/// The canonical form is all digits and no longer than ten digits.
pub proof fn lemma_dec_rep_shape(n: u32)
    ensures
        1 <= dec_rep(n).len() <= 10,
        forall|i: int| 0 <= i < dec_rep(n).len() ==> is_digit(#[trigger] dec_rep(n)[i]),
        digits_val(dec_rep(n)) == n,
    decreases n,
{
    lemma_u32_below_pow10(n);
    lemma_dec_rep_len_bound(n, 10);
    if n < 10 {
        let ds = dec_rep(n);
        assert(ds.drop_last() =~= Seq::<u8>::empty());
        assert(digits_val(Seq::<u8>::empty()) == 0);
        assert(digits_val(ds) == n);
    } else {
        lemma_dec_rep_shape(n / 10);
        let ds = dec_rep(n);
        assert(ds.drop_last() =~= dec_rep(n / 10));
        assert(digits_val(ds) == digits_val(dec_rep(n / 10)) * 10 + n % 10);
        assert((n / 10) * 10 + n % 10 == n) by (nonlinear_arith);
        assert forall|i: int| 0 <= i < ds.len() implies is_digit(#[trigger] ds[i]) by {
            if i < ds.len() - 1 {
                assert(ds[i] == dec_rep(n / 10)[i]);
            }
        }
    }
}

/// Ten digits are enough for any `u32`.
proof fn lemma_dec_rep_len_bound(n: u32, k: int)
    requires
        1 <= k,
        n < pow10(k),
    ensures
        dec_rep(n).len() <= k,
    decreases k,
{
    if n < 10 {
    } else {
        assert(pow10(k) == 10 * pow10(k - 1));
        assert(n / 10 < pow10(k - 1)) by (nonlinear_arith)
            requires
                n < pow10(k),
                pow10(k) == 10 * pow10(k - 1),
                n >= 10,
        ;
        assert(k >= 2) by {
            if k == 1 {
                assert(pow10(1) == 10);
            }
        }
        lemma_dec_rep_len_bound(n / 10, k - 1);
    }
}

/// Every `u32` is below the tenth power of ten.
pub proof fn lemma_u32_below_pow10(n: u32)
    ensures
        n < pow10(10),
{
    assert(pow10(10) == 10_000_000_000) by {
        reveal_with_fuel(pow10, 11);
    }
}

/// The value of a digit string is bounded by the power of ten of its length.
pub proof fn lemma_digits_val_bound(ds: Seq<u8>)
    requires
        forall|i: int| 0 <= i < ds.len() ==> is_digit(#[trigger] ds[i]),
    ensures
        0 <= digits_val(ds) < pow10(ds.len() as int),
    decreases ds.len(),
{
    if ds.len() > 0 {
        let dl = ds.drop_last();
        assert(forall|i: int| 0 <= i < dl.len() ==> is_digit(#[trigger] dl[i]));
        lemma_digits_val_bound(dl);
        assert(pow10(ds.len() as int) == 10 * pow10(dl.len() as int));
        assert(digits_val(dl) * 10 + 9 < 10 * pow10(dl.len() as int)) by (nonlinear_arith)
            requires
                digits_val(dl) < pow10(dl.len() as int),
        ;
        assert(is_digit(ds.last()));
    }
}

/// A digit run stops exactly at the first non-digit.
pub proof fn lemma_digit_run_of(ds: Seq<u8>, tail: Seq<u8>)
    requires
        forall|i: int| 0 <= i < ds.len() ==> is_digit(#[trigger] ds[i]),
        tail.len() > 0,
        !is_digit(tail[0]),
    ensures
        digit_run(ds + tail) == ds.len(),
    decreases ds.len(),
{
    if ds.len() == 0 {
        assert(ds + tail =~= tail);
    } else {
        let f = ds + tail;
        assert(f[0] == ds[0]);
        assert(f.drop_first() =~= ds.drop_first() + tail);
        assert(forall|i: int|
            0 <= i < ds.drop_first().len() ==> is_digit(#[trigger] ds.drop_first()[i]));
        lemma_digit_run_of(ds.drop_first(), tail);
    }
}

/// Parsing inverts printing, whatever follows the digits, as long as it
/// does not begin with another digit.
pub proof fn lemma_parse_dec_rep(n: u32, tail: Seq<u8>)
    requires
        tail.len() > 0,
        !is_digit(tail[0]),
    ensures
        parse_u32(dec_rep(n) + tail) == Some((n, tail)),
{
    lemma_dec_rep_shape(n);
    lemma_digit_run_of(dec_rep(n), tail);
    let f = dec_rep(n) + tail;
    let k = digit_run(f);
    assert(k == dec_rep(n).len());
    assert(f.take(k) =~= dec_rep(n));
    assert(f.skip(k) =~= tail);
}

// ---------------------------------------------------------------------------
// Scanning a JSON string body up to its closing quote.
// ---------------------------------------------------------------------------
/// The single-letter escapes the scanner accepts: the five the encoder
/// emits, plus `\b` and `\f`, which other JSON producers prefer over
/// `\u0008` and `\u000c`.
pub open spec fn is_simple_escape(c: u8) -> bool {
    c == 0x22 || c == 0x5c || c == 0x6e || c == 0x72 || c == 0x74 || c == 0x62 || c == 0x66
}

/// The byte a single-letter escape stands for.
pub open spec fn unesc_code(c: u8) -> u8 {
    if c == 0x22 {
        0x22
    } else if c == 0x5c {
        0x5c
    } else if c == 0x6e {
        0x0a
    } else if c == 0x72 {
        0x0d
    } else if c == 0x62 {
        0x08
    } else if c == 0x66 {
        0x0c
    } else {
        0x09
    }
}

/// A lowercase hex digit.
pub open spec fn is_hex_lower(c: u8) -> bool {
    (0x30 <= c <= 0x39) || (0x61 <= c <= 0x66)
}

/// The value of a lowercase hex digit.
pub open spec fn hex_val(c: u8) -> u8 {
    if c <= 0x39 {
        (c - 0x30) as u8
    } else {
        ((c - 0x61) + 10) as u8
    }
}

/// Scan a string body from just after its opening quote: the unescaped
/// payload and what follows the closing quote, or nothing if the input is
/// not a properly quoted string.
pub open spec fn scan_string(f: Seq<u8>) -> Option<(Seq<u8>, Seq<u8>)>
    decreases f.len(),
{
    if f.len() == 0 {
        None
    } else if f[0] == 0x22 {
        Some((Seq::empty(), f.drop_first()))
    } else if f[0] == 0x5c {
        if f.len() >= 2 && is_simple_escape(f[1]) {
            match scan_string(f.skip(2)) {
                Some(p) => Some((seq![unesc_code(f[1])] + p.0, p.1)),
                None => None,
            }
        } else if f.len() >= 6 && f[1] == 0x75 && f[2] == 0x30 && f[3] == 0x30 && is_hex_lower(
            f[4],
        ) && is_hex_lower(f[5]) {
            match scan_string(f.skip(6)) {
                Some(p) => Some((seq![(hex_val(f[4]) * 16 + hex_val(f[5])) as u8] + p.0, p.1)),
                None => None,
            }
        } else {
            None
        }
    } else if f[0] >= 0x20 {
        match scan_string(f.drop_first()) {
            Some(p) => Some((seq![f[0]] + p.0, p.1)),
            None => None,
        }
    } else {
        None
    }
}

/// The scanner inverts the escaper: an escaped payload followed by a
/// closing quote scans back to the payload, whatever follows.
pub proof fn lemma_scan_esc(s: Seq<u8>, tail: Seq<u8>)
    ensures
        scan_string(esc(s) + seq![0x22u8] + tail) == Some((s, tail)),
    decreases s.len(),
{
    if s.len() == 0 {
        let f = esc(s) + seq![0x22u8] + tail;
        assert(f =~= seq![0x22u8] + tail);
        assert(f[0] == 0x22);
        assert(f.drop_first() =~= tail);
    } else {
        lemma_esc_first(s);
        let b = s[0];
        let rest = s.drop_first();
        lemma_scan_esc(rest, tail);
        let f = esc(s) + seq![0x22u8] + tail;
        let f2 = esc(rest) + seq![0x22u8] + tail;
        assert(f =~= esc_byte(b) + f2);
        assert(f2.len() > 0);
        if b == 0x22 || b == 0x5c || b == 0x0a || b == 0x0d || b == 0x09 {
            assert(f[0] == 0x5c && is_simple_escape(f[1]));
            assert(f.skip(2) =~= f2);
            assert(unesc_code(f[1]) == b);
            assert(seq![b] + rest =~= s);
        } else if b < 0x20 {
            assert(f[0] == 0x5c && f[1] == 0x75 && f[2] == 0x30 && f[3] == 0x30);
            assert(f[4] == hex_digit(b / 16) && f[5] == hex_digit(b % 16));
            assert(is_hex_lower(f[4]) && is_hex_lower(f[5]));
            assert(hex_val(f[4]) == b / 16 && hex_val(f[5]) == b % 16);
            assert(f.skip(6) =~= f2);
            assert((hex_val(f[4]) * 16 + hex_val(f[5])) as u8 == b);
            assert(seq![b] + rest =~= s);
        } else {
            assert(is_plain(b));
            assert(f[0] == b);
            assert(f.drop_first() =~= f2);
            assert(seq![b] + rest =~= s);
        }
    }
}

// ---------------------------------------------------------------------------
// The envelope grammar.
// ---------------------------------------------------------------------------
/// The opening of every envelope, through the quote that starts the tag.
pub open spec fn type_key() -> Seq<u8> {
    seq![123u8, 34u8, 116u8, 121u8, 112u8, 101u8, 34u8, 58u8, 34u8]
}

pub open spec fn tag_offer() -> Seq<u8> {
    seq![111u8, 102u8, 102u8, 101u8, 114u8]
}

pub open spec fn tag_answer() -> Seq<u8> {
    seq![97u8, 110u8, 115u8, 119u8, 101u8, 114u8]
}

pub open spec fn tag_candidate() -> Seq<u8> {
    seq![99u8, 97u8, 110u8, 100u8, 105u8, 100u8, 97u8, 116u8, 101u8]
}

pub open spec fn tag_image() -> Seq<u8> {
    seq![105u8, 109u8, 97u8, 103u8, 101u8]
}

pub open spec fn tag_trigger() -> Seq<u8> {
    seq![
        116u8,
        114u8,
        105u8,
        103u8,
        103u8,
        101u8,
        114u8,
        105u8,
        109u8,
        97u8,
        103u8,
        101u8,
        99u8,
        97u8,
        112u8,
        116u8,
        117u8,
        114u8,
        101u8,
    ]
}

/// The `","sdp":"` key, after the tag's closing quote is consumed.
pub open spec fn sdp_key() -> Seq<u8> {
    seq![44u8, 34u8, 115u8, 100u8, 112u8, 34u8, 58u8, 34u8]
}

pub open spec fn cand_key() -> Seq<u8> {
    seq![44u8, 34u8, 99u8, 97u8, 110u8, 100u8, 105u8, 100u8, 97u8, 116u8, 101u8, 34u8, 58u8, 34u8]
}

pub open spec fn mid_key() -> Seq<u8> {
    seq![44u8, 34u8, 115u8, 100u8, 112u8, 95u8, 109u8, 105u8, 100u8, 34u8, 58u8]
}

pub open spec fn mline_key() -> Seq<u8> {
    seq![
        44u8,
        34u8,
        115u8,
        100u8,
        112u8,
        95u8,
        109u8,
        108u8,
        105u8,
        110u8,
        101u8,
        95u8,
        105u8,
        110u8,
        100u8,
        101u8,
        120u8,
        34u8,
        58u8,
    ]
}

pub open spec fn data_key() -> Seq<u8> {
    seq![44u8, 34u8, 100u8, 97u8, 116u8, 97u8, 34u8, 58u8, 34u8]
}

pub open spec fn null_lit() -> Seq<u8> {
    seq![110u8, 117u8, 108u8, 108u8]
}

pub open spec fn quote_lit() -> Seq<u8> {
    seq![34u8]
}

pub open spec fn close_lit() -> Seq<u8> {
    seq![125u8]
}

/// The canonical JSON form of an optional string field value.
pub open spec fn enc_opt_str(v: Option<Seq<u8>>) -> Seq<u8> {
    match v {
        Some(s) => quote_lit() + esc(s) + quote_lit(),
        None => null_lit(),
    }
}

/// The canonical JSON form of an optional number field value.
pub open spec fn enc_opt_num(v: Option<u32>) -> Seq<u8> {
    match v {
        Some(n) => dec_rep(n),
        None => null_lit(),
    }
}

/// The canonical wire form of a message.
pub open spec fn spec_encode(m: MessageModel) -> Seq<u8> {
    match m {
        MessageModel::Offer { sdp } => type_key() + tag_offer() + quote_lit() + sdp_key() + esc(
            sdp,
        ) + quote_lit() + close_lit(),
        MessageModel::Answer { sdp } => type_key() + tag_answer() + quote_lit() + sdp_key() + esc(
            sdp,
        ) + quote_lit() + close_lit(),
        MessageModel::Candidate { candidate, sdp_mid, sdp_mline_index } => type_key()
            + tag_candidate() + quote_lit() + cand_key() + esc(candidate) + quote_lit() + mid_key()
            + enc_opt_str(sdp_mid) + mline_key() + enc_opt_num(sdp_mline_index) + close_lit(),
        MessageModel::Image { data } => type_key() + tag_image() + quote_lit() + data_key() + esc(
            data,
        ) + quote_lit() + close_lit(),
        MessageModel::TriggerImageCapture => type_key() + tag_trigger() + quote_lit() + close_lit(),
    }
}

/// Whether the input begins with the given bytes.
pub open spec fn starts_with(f: Seq<u8>, p: Seq<u8>) -> bool {
    f.len() >= p.len() && f.take(p.len() as int) == p
}

/// What remains after a required literal, if it is there.
pub open spec fn after_lit(f: Seq<u8>, p: Seq<u8>) -> Option<Seq<u8>> {
    if starts_with(f, p) {
        Some(f.skip(p.len() as int))
    } else {
        None
    }
}

/// Dropping a literal that is really there.
pub proof fn lemma_after_lit(p: Seq<u8>, rest: Seq<u8>)
    ensures
        after_lit(p + rest, p) == Some(rest),
{
    assert((p + rest).take(p.len() as int) =~= p);
    assert((p + rest).skip(p.len() as int) =~= rest);
}

/// Decoding of an optional string field value.
pub open spec fn dec_opt_str(r: Seq<u8>) -> Option<(Option<Seq<u8>>, Seq<u8>)> {
    if starts_with(r, null_lit()) {
        Some((None, r.skip(null_lit().len() as int)))
    } else if r.len() > 0 && r[0] == 0x22 {
        match scan_string(r.drop_first()) {
            Some(p) => Some((Some(p.0), p.1)),
            None => None,
        }
    } else {
        None
    }
}

/// Decoding of an optional number field value.
pub open spec fn dec_opt_num(r: Seq<u8>) -> Option<(Option<u32>, Seq<u8>)> {
    if starts_with(r, null_lit()) {
        Some((None, r.skip(null_lit().len() as int)))
    } else {
        match parse_u32(r) {
            Some(p) => Some((Some(p.0), p.1)),
            None => None,
        }
    }
}

/// Decode a whole frame: exactly the canonical grammar, nothing before or
/// after, unknown tags rejected.
pub open spec fn spec_decode(f: Seq<u8>) -> Option<MessageModel> {
    match after_lit(f, type_key()) {
        None => None,
        Some(r0) => match scan_string(r0) {
            None => None,
            Some((tag, r1)) => if tag == tag_offer() {
                match after_lit(r1, sdp_key()) {
                    None => None,
                    Some(r2) => match scan_string(r2) {
                        None => None,
                        Some((sdp, r3)) => if r3 == close_lit() {
                            Some(MessageModel::Offer { sdp })
                        } else {
                            None
                        },
                    },
                }
            } else if tag == tag_answer() {
                match after_lit(r1, sdp_key()) {
                    None => None,
                    Some(r2) => match scan_string(r2) {
                        None => None,
                        Some((sdp, r3)) => if r3 == close_lit() {
                            Some(MessageModel::Answer { sdp })
                        } else {
                            None
                        },
                    },
                }
            } else if tag == tag_candidate() {
                match after_lit(r1, cand_key()) {
                    None => None,
                    Some(r2) => match scan_string(r2) {
                        None => None,
                        Some((candidate, r3)) => match after_lit(r3, mid_key()) {
                            None => None,
                            Some(r4) => match dec_opt_str(r4) {
                                None => None,
                                Some((sdp_mid, r5)) => match after_lit(r5, mline_key()) {
                                    None => None,
                                    Some(r6) => match dec_opt_num(r6) {
                                        None => None,
                                        Some((sdp_mline_index, r7)) => if r7 == close_lit() {
                                            Some(
                                                MessageModel::Candidate {
                                                    candidate,
                                                    sdp_mid,
                                                    sdp_mline_index,
                                                },
                                            )
                                        } else {
                                            None
                                        },
                                    },
                                },
                            },
                        },
                    },
                }
            } else if tag == tag_image() {
                match after_lit(r1, data_key()) {
                    None => None,
                    Some(r2) => match scan_string(r2) {
                        None => None,
                        Some((data, r3)) => if r3 == close_lit() {
                            Some(MessageModel::Image { data })
                        } else {
                            None
                        },
                    },
                }
            } else if tag == tag_trigger() {
                if r1 == close_lit() {
                    Some(MessageModel::TriggerImageCapture)
                } else {
                    None
                }
            } else {
                None
            },
        },
    }
}

/// Scanning a literal of plain bytes up to its closing quote.
proof fn lemma_scan_plain_lit(t: Seq<u8>, rest: Seq<u8>)
    requires
        forall|i: int| 0 <= i < t.len() ==> is_plain(#[trigger] t[i]),
    ensures
        scan_string(t + seq![0x22u8] + rest) == Some((t, rest)),
{
    lemma_esc_plain(t);
    lemma_scan_esc(t, rest);
    assert(esc(t) + seq![0x22u8] + rest =~= t + seq![0x22u8] + rest);
}

/// The tags are made of plain bytes and differ pairwise in their first byte.
proof fn lemma_tags(t: Seq<u8>)
    requires
        t == tag_offer() || t == tag_answer() || t == tag_candidate() || t == tag_image() || t
            == tag_trigger(),
    ensures
        forall|i: int| 0 <= i < t.len() ==> is_plain(#[trigger] t[i]),
{
    assert forall|i: int| 0 <= i < t.len() implies is_plain(#[trigger] t[i]) by {
        assert(0x20 <= 97 && 97 <= 0x7a);
        assert(is_plain(t[i])) by {
            assert(97 <= t[i] <= 122 || t[i] == 95) by {
                if t == tag_offer() {
                    assert(t =~= tag_offer());
                } else if t == tag_answer() {
                } else if t == tag_candidate() {
                } else if t == tag_image() {
                } else {
                }
            }
        }
    }
}

/// Round trip of the offer variant.
#[verifier::rlimit(60)]
proof fn lemma_rt_offer(sdp: Seq<u8>)
    ensures
        spec_decode(spec_encode(MessageModel::Offer { sdp })) == Some(
            MessageModel::Offer { sdp },
        ),
{
    let f = spec_encode(MessageModel::Offer { sdp });
    let r2 = esc(sdp) + quote_lit() + close_lit();
    let rest_tag = sdp_key() + r2;
    let r0 = tag_offer() + seq![0x22u8] + rest_tag;
    assert(f =~= type_key() + r0);
    lemma_after_lit(type_key(), r0);
    lemma_tags(tag_offer());
    lemma_scan_plain_lit(tag_offer(), rest_tag);
    lemma_after_lit(sdp_key(), r2);
    lemma_scan_esc(sdp, close_lit());
    assert(r2 =~= esc(sdp) + seq![0x22u8] + close_lit());
}

/// Round trip of the answer variant.
#[verifier::rlimit(60)]
proof fn lemma_rt_answer(sdp: Seq<u8>)
    ensures
        spec_decode(spec_encode(MessageModel::Answer { sdp })) == Some(
            MessageModel::Answer { sdp },
        ),
{
    let f = spec_encode(MessageModel::Answer { sdp });
    let r2 = esc(sdp) + quote_lit() + close_lit();
    let rest_tag = sdp_key() + r2;
    let r0 = tag_answer() + seq![0x22u8] + rest_tag;
    assert(f =~= type_key() + r0);
    lemma_after_lit(type_key(), r0);
    lemma_tags(tag_answer());
    lemma_scan_plain_lit(tag_answer(), rest_tag);
    assert(tag_answer()[0] != tag_offer()[0]);
    lemma_after_lit(sdp_key(), r2);
    lemma_scan_esc(sdp, close_lit());
    assert(r2 =~= esc(sdp) + seq![0x22u8] + close_lit());
}

/// Round trip of the image variant.
#[verifier::rlimit(60)]
proof fn lemma_rt_image(data: Seq<u8>)
    ensures
        spec_decode(spec_encode(MessageModel::Image { data })) == Some(
            MessageModel::Image { data },
        ),
{
    let f = spec_encode(MessageModel::Image { data });
    let r2 = esc(data) + quote_lit() + close_lit();
    let rest_tag = data_key() + r2;
    let r0 = tag_image() + seq![0x22u8] + rest_tag;
    assert(f =~= type_key() + r0);
    lemma_after_lit(type_key(), r0);
    lemma_tags(tag_image());
    lemma_scan_plain_lit(tag_image(), rest_tag);
    assert(tag_image()[0] != tag_offer()[0]);
    assert(tag_image()[0] != tag_answer()[0]);
    assert(tag_image()[0] != tag_candidate()[0]);
    lemma_after_lit(data_key(), r2);
    lemma_scan_esc(data, close_lit());
    assert(r2 =~= esc(data) + seq![0x22u8] + close_lit());
}

/// Round trip of the control variant.
#[verifier::rlimit(60)]
proof fn lemma_rt_trigger()
    ensures
        spec_decode(spec_encode(MessageModel::TriggerImageCapture)) == Some(
            MessageModel::TriggerImageCapture,
        ),
{
    let f = spec_encode(MessageModel::TriggerImageCapture);
    let r0 = tag_trigger() + seq![0x22u8] + close_lit();
    assert(f =~= type_key() + r0);
    lemma_after_lit(type_key(), r0);
    lemma_tags(tag_trigger());
    lemma_scan_plain_lit(tag_trigger(), close_lit());
    assert(tag_trigger()[0] != tag_offer()[0]);
    assert(tag_trigger()[0] != tag_answer()[0]);
    assert(tag_trigger()[0] != tag_candidate()[0]);
    assert(tag_trigger()[0] != tag_image()[0]);
}

/// Round trip of the candidate variant.
#[verifier::rlimit(100)]
proof fn lemma_rt_candidate(candidate: Seq<u8>, sdp_mid: Option<Seq<u8>>, sdp_mline_index: Option<
    u32,
>)
    ensures
        spec_decode(spec_encode(MessageModel::Candidate { candidate, sdp_mid, sdp_mline_index }))
            == Some(MessageModel::Candidate { candidate, sdp_mid, sdp_mline_index }),
{
    let f = spec_encode(MessageModel::Candidate { candidate, sdp_mid, sdp_mline_index });
    let r7 = close_lit();
    let r6 = enc_opt_num(sdp_mline_index) + r7;
    let r5 = mline_key() + r6;
    let r4 = enc_opt_str(sdp_mid) + r5;
    let r3 = mid_key() + r4;
    let r2 = esc(candidate) + quote_lit() + r3;
    let rest_tag = cand_key() + r2;
    let r0 = tag_candidate() + seq![0x22u8] + rest_tag;
    assert(f =~= type_key() + r0);
    lemma_after_lit(type_key(), r0);
    lemma_tags(tag_candidate());
    lemma_scan_plain_lit(tag_candidate(), rest_tag);
    assert(tag_candidate()[0] != tag_offer()[0]);
    assert(tag_candidate()[0] != tag_answer()[0]);
    lemma_after_lit(cand_key(), r2);
    lemma_scan_esc(candidate, r3);
    assert(r2 =~= esc(candidate) + seq![0x22u8] + r3);
    lemma_after_lit(mid_key(), r4);
    match sdp_mid {
        Some(mid) => {
            assert(r4 =~= quote_lit() + (esc(mid) + quote_lit() + r5));
            assert(r4[0] == 0x22);
            assert(!starts_with(r4, null_lit())) by {
                if starts_with(r4, null_lit()) {
                    assert(r4.take(null_lit().len() as int)[0] == null_lit()[0]);
                }
            }
            lemma_scan_esc(mid, r5);
            assert(r4.drop_first() =~= esc(mid) + seq![0x22u8] + r5);
            assert(dec_opt_str(r4) == Some((Some(mid), r5)));
        },
        None => {
            assert(r4 =~= null_lit() + r5);
            assert(starts_with(r4, null_lit())) by {
                assert(r4.take(null_lit().len() as int) =~= null_lit());
            }
            assert(r4.skip(null_lit().len() as int) =~= r5);
        },
    }
    lemma_after_lit(mline_key(), r6);
    match sdp_mline_index {
        Some(n) => {
            lemma_dec_rep_shape(n);
            assert(r6 =~= dec_rep(n) + r7);
            assert(r6[0] == dec_rep(n)[0]);
            assert(is_digit(r6[0]));
            assert(!starts_with(r6, null_lit())) by {
                if starts_with(r6, null_lit()) {
                    assert(r6.take(null_lit().len() as int)[0] == null_lit()[0]);
                }
            }
            assert(!is_digit(close_lit()[0]));
            lemma_parse_dec_rep(n, r7);
            assert(dec_opt_num(r6) == Some((Some(n), r7)));
        },
        None => {
            assert(r6 =~= null_lit() + r7);
            assert(starts_with(r6, null_lit())) by {
                assert(r6.take(null_lit().len() as int) =~= null_lit());
            }
            assert(r6.skip(null_lit().len() as int) =~= r7);
        },
    }
}

/// Round trip: every message decodes from its own canonical encoding.
pub proof fn lemma_codec_round_trip(m: MessageModel)
    ensures
        spec_decode(spec_encode(m)) == Some(m),
{
    match m {
        MessageModel::Offer { sdp } => lemma_rt_offer(sdp),
        MessageModel::Answer { sdp } => lemma_rt_answer(sdp),
        MessageModel::Candidate { candidate, sdp_mid, sdp_mline_index } => lemma_rt_candidate(
            candidate,
            sdp_mid,
            sdp_mline_index,
        ),
        MessageModel::Image { data } => lemma_rt_image(data),
        MessageModel::TriggerImageCapture => lemma_rt_trigger(),
    }
}


// ---------------------------------------------------------------------------
// The executable codec.
// ---------------------------------------------------------------------------
/// The `type_key` bytes as a runtime value.
fn mk_type_key() -> (r: Vec<u8>)
    ensures
        r@ == type_key(),
{
    let mut v: Vec<u8> = Vec::new();
    v.push(123);
    v.push(34);
    v.push(116);
    v.push(121);
    v.push(112);
    v.push(101);
    v.push(34);
    v.push(58);
    v.push(34);
    proof {
        assert(v@ =~= type_key());
    }
    v
}

/// The `tag_offer` bytes as a runtime value.
fn mk_tag_offer() -> (r: Vec<u8>)
    ensures
        r@ == tag_offer(),
{
    let mut v: Vec<u8> = Vec::new();
    v.push(111);
    v.push(102);
    v.push(102);
    v.push(101);
    v.push(114);
    proof {
        assert(v@ =~= tag_offer());
    }
    v
}

/// The `tag_answer` bytes as a runtime value.
fn mk_tag_answer() -> (r: Vec<u8>)
    ensures
        r@ == tag_answer(),
{
    let mut v: Vec<u8> = Vec::new();
    v.push(97);
    v.push(110);
    v.push(115);
    v.push(119);
    v.push(101);
    v.push(114);
    proof {
        assert(v@ =~= tag_answer());
    }
    v
}

/// The `tag_candidate` bytes as a runtime value.
fn mk_tag_candidate() -> (r: Vec<u8>)
    ensures
        r@ == tag_candidate(),
{
    let mut v: Vec<u8> = Vec::new();
    v.push(99);
    v.push(97);
    v.push(110);
    v.push(100);
    v.push(105);
    v.push(100);
    v.push(97);
    v.push(116);
    v.push(101);
    proof {
        assert(v@ =~= tag_candidate());
    }
    v
}

/// The `tag_image` bytes as a runtime value.
fn mk_tag_image() -> (r: Vec<u8>)
    ensures
        r@ == tag_image(),
{
    let mut v: Vec<u8> = Vec::new();
    v.push(105);
    v.push(109);
    v.push(97);
    v.push(103);
    v.push(101);
    proof {
        assert(v@ =~= tag_image());
    }
    v
}

/// The `tag_trigger` bytes as a runtime value.
fn mk_tag_trigger() -> (r: Vec<u8>)
    ensures
        r@ == tag_trigger(),
{
    let mut v: Vec<u8> = Vec::new();
    v.push(116);
    v.push(114);
    v.push(105);
    v.push(103);
    v.push(103);
    v.push(101);
    v.push(114);
    v.push(105);
    v.push(109);
    v.push(97);
    v.push(103);
    v.push(101);
    v.push(99);
    v.push(97);
    v.push(112);
    v.push(116);
    v.push(117);
    v.push(114);
    v.push(101);
    proof {
        assert(v@ =~= tag_trigger());
    }
    v
}

/// The `sdp_key` bytes as a runtime value.
fn mk_sdp_key() -> (r: Vec<u8>)
    ensures
        r@ == sdp_key(),
{
    let mut v: Vec<u8> = Vec::new();
    v.push(44);
    v.push(34);
    v.push(115);
    v.push(100);
    v.push(112);
    v.push(34);
    v.push(58);
    v.push(34);
    proof {
        assert(v@ =~= sdp_key());
    }
    v
}

/// The `cand_key` bytes as a runtime value.
fn mk_cand_key() -> (r: Vec<u8>)
    ensures
        r@ == cand_key(),
{
    let mut v: Vec<u8> = Vec::new();
    v.push(44);
    v.push(34);
    v.push(99);
    v.push(97);
    v.push(110);
    v.push(100);
    v.push(105);
    v.push(100);
    v.push(97);
    v.push(116);
    v.push(101);
    v.push(34);
    v.push(58);
    v.push(34);
    proof {
        assert(v@ =~= cand_key());
    }
    v
}

/// The `mid_key` bytes as a runtime value.
fn mk_mid_key() -> (r: Vec<u8>)
    ensures
        r@ == mid_key(),
{
    let mut v: Vec<u8> = Vec::new();
    v.push(44);
    v.push(34);
    v.push(115);
    v.push(100);
    v.push(112);
    v.push(95);
    v.push(109);
    v.push(105);
    v.push(100);
    v.push(34);
    v.push(58);
    proof {
        assert(v@ =~= mid_key());
    }
    v
}

/// The `mline_key` bytes as a runtime value.
fn mk_mline_key() -> (r: Vec<u8>)
    ensures
        r@ == mline_key(),
{
    let mut v: Vec<u8> = Vec::new();
    v.push(44);
    v.push(34);
    v.push(115);
    v.push(100);
    v.push(112);
    v.push(95);
    v.push(109);
    v.push(108);
    v.push(105);
    v.push(110);
    v.push(101);
    v.push(95);
    v.push(105);
    v.push(110);
    v.push(100);
    v.push(101);
    v.push(120);
    v.push(34);
    v.push(58);
    proof {
        assert(v@ =~= mline_key());
    }
    v
}

/// The `data_key` bytes as a runtime value.
fn mk_data_key() -> (r: Vec<u8>)
    ensures
        r@ == data_key(),
{
    let mut v: Vec<u8> = Vec::new();
    v.push(44);
    v.push(34);
    v.push(100);
    v.push(97);
    v.push(116);
    v.push(97);
    v.push(34);
    v.push(58);
    v.push(34);
    proof {
        assert(v@ =~= data_key());
    }
    v
}

/// The `null_lit` bytes as a runtime value.
fn mk_null_lit() -> (r: Vec<u8>)
    ensures
        r@ == null_lit(),
{
    let mut v: Vec<u8> = Vec::new();
    v.push(110);
    v.push(117);
    v.push(108);
    v.push(108);
    proof {
        assert(v@ =~= null_lit());
    }
    v
}

/// Append the canonical escaping of a payload.
fn escape_onto(out: &mut Vec<u8>, s: &Vec<u8>)
    ensures
        final(out)@ == old(out)@ + esc(s@),
{
    let ghost base = old(out)@;
    let n = s.len();
    let mut i: usize = 0;
    proof {
        assert(esc(s@.take(0)) =~= Seq::<u8>::empty());
        assert(out@ =~= base + esc(s@.take(0)));
    }
    while i < n
        invariant
            n == s@.len(),
            0 <= i <= n,
            out@ == base + esc(s@.take(i as int)),
        decreases n - i,
    {
        let b = s[i];
        let ghost pre = out@;
        if b == 0x22 {
            out.push(0x5c);
            out.push(0x22);
        } else if b == 0x5c {
            out.push(0x5c);
            out.push(0x5c);
        } else if b == 0x0a {
            out.push(0x5c);
            out.push(0x6e);
        } else if b == 0x0d {
            out.push(0x5c);
            out.push(0x72);
        } else if b == 0x09 {
            out.push(0x5c);
            out.push(0x74);
        } else if b < 0x20 {
            out.push(0x5c);
            out.push(0x75);
            out.push(0x30);
            out.push(0x30);
            let hi: u8 = b / 16;
            let lo: u8 = b % 16;
            out.push(if hi < 10 { 0x30 + hi } else { 0x57 + hi });
            out.push(if lo < 10 { 0x30 + lo } else { 0x57 + lo });
        } else {
            out.push(b);
        }
        proof {
            assert(out@ =~= pre + esc_byte(b));
            assert(s@.take(i + 1 as int).drop_last() =~= s@.take(i as int));
            assert(s@.take(i + 1 as int).last() == b);
            assert(out@ =~= base + esc(s@.take(i + 1 as int)));
        }
        i += 1;
    }
    proof {
        assert(s@.take(n as int) =~= s@);
    }
}

/// Append the canonical decimal form of a number.
fn emit_u32(out: &mut Vec<u8>, n: u32)
    ensures
        final(out)@ == old(out)@ + dec_rep(n),
    decreases n,
{
    if n < 10 {
        out.push(0x30 + n as u8);
        proof {
            assert(out@ =~= old(out)@ + dec_rep(n));
        }
    } else {
        emit_u32(out, n / 10);
        out.push(0x30 + (n % 10) as u8);
        proof {
            assert(out@ =~= old(out)@ + dec_rep(n));
        }
    }
}

/// Serialize a message into its canonical wire form.
pub fn encode_message(m: &SignalingMessage) -> (r: Vec<u8>)
    ensures
        r@ == spec_encode(m@),
{
    let mut out: Vec<u8> = Vec::new();
    let mut tk = mk_type_key();
    out.append(&mut tk);
    match m {
        SignalingMessage::Offer { sdp } => {
            let mut t = mk_tag_offer();
            out.append(&mut t);
            out.push(34);
            let mut k = mk_sdp_key();
            out.append(&mut k);
            escape_onto(&mut out, sdp);
            out.push(34);
            out.push(125);
            proof {
                assert(out@ =~= spec_encode(m@));
            }
        },
        SignalingMessage::Answer { sdp } => {
            let mut t = mk_tag_answer();
            out.append(&mut t);
            out.push(34);
            let mut k = mk_sdp_key();
            out.append(&mut k);
            escape_onto(&mut out, sdp);
            out.push(34);
            out.push(125);
            proof {
                assert(out@ =~= spec_encode(m@));
            }
        },
        SignalingMessage::Candidate { candidate, sdp_mid, sdp_mline_index } => {
            let mut t = mk_tag_candidate();
            out.append(&mut t);
            out.push(34);
            let mut k = mk_cand_key();
            out.append(&mut k);
            escape_onto(&mut out, candidate);
            out.push(34);
            let mut mk = mk_mid_key();
            out.append(&mut mk);
            match sdp_mid {
                Some(mid) => {
                    out.push(34);
                    escape_onto(&mut out, mid);
                    out.push(34);
                },
                None => {
                    let mut nl = mk_null_lit();
                    out.append(&mut nl);
                },
            }
            let mut lk = mk_mline_key();
            out.append(&mut lk);
            match sdp_mline_index {
                Some(idx) => {
                    emit_u32(&mut out, *idx);
                },
                None => {
                    let mut nl = mk_null_lit();
                    out.append(&mut nl);
                },
            }
            out.push(125);
            proof {
                assert(out@ =~= spec_encode(m@));
            }
        },
        SignalingMessage::Image { data } => {
            let mut t = mk_tag_image();
            out.append(&mut t);
            out.push(34);
            let mut k = mk_data_key();
            out.append(&mut k);
            escape_onto(&mut out, data);
            out.push(34);
            out.push(125);
            proof {
                assert(out@ =~= spec_encode(m@));
            }
        },
        SignalingMessage::TriggerImageCapture => {
            let mut t = mk_tag_trigger();
            out.append(&mut t);
            out.push(34);
            out.push(125);
            proof {
                assert(out@ =~= spec_encode(m@));
            }
        },
    }
    out
}

/// Consume a required literal at the cursor.
fn eat(f: &Vec<u8>, at: usize, lit: &Vec<u8>) -> (r: Option<usize>)
    requires
        at <= f@.len(),
    ensures
        (match r {
            Some(j) => j == at + lit@.len() && j <= f@.len() && starts_with(
                f@.skip(at as int),
                lit@,
            ) && f@.skip(at as int).skip(lit@.len() as int) == f@.skip(j as int),
            None => !starts_with(f@.skip(at as int), lit@),
        }),
{
    let m = lit.len();
    let n = f.len();
    if n - at < m {
        proof {
            assert(f@.skip(at as int).len() < lit@.len());
        }
        return None;
    }
    let mut i: usize = 0;
    while i < m
        invariant
            m == lit@.len(),
            n == f@.len(),
            at + m <= n,
            0 <= i <= m,
            forall|k: int| 0 <= k < i ==> f@.skip(at as int)[k] == lit@[k],
        decreases m - i,
    {
        if f[at + i] != lit[i] {
            proof {
                assert(f@.skip(at as int)[i as int] == f@[at + i]);
                assert(!starts_with(f@.skip(at as int), lit@)) by {
                    if starts_with(f@.skip(at as int), lit@) {
                        assert(f@.skip(at as int).take(lit@.len() as int)[i as int] == lit@[
                        i as int]);
                    }
                }
            }
            return None;
        }
        proof {
            assert(f@.skip(at as int)[i as int] == f@[at + i]);
        }
        i += 1;
    }
    proof {
        assert(f@.skip(at as int).take(m as int) =~= lit@);
        assert(f@.skip(at as int).skip(m as int) =~= f@.skip((at + m) as int));
    }
    Some(at + m)
}

/// Scan a string body from just after its opening quote.
fn scan_string_from(f: &Vec<u8>, at: usize) -> (r: Option<(Vec<u8>, usize)>)
    requires
        at <= f@.len(),
    ensures
        (match r {
            Some(p) => at <= p.1 <= f@.len() && scan_string(f@.skip(at as int)) == Some(
                (p.0@, f@.skip(p.1 as int)),
            ),
            None => scan_string(f@.skip(at as int)) is None,
        }),
{
    let mut acc: Vec<u8> = Vec::new();
    let mut i: usize = at;
    while i < f.len()
        invariant
            at <= i <= f@.len(),
            (match scan_string(f@.skip(i as int)) {
                Some(q) => scan_string(f@.skip(at as int)) == Some((acc@ + q.0, q.1)),
                None => scan_string(f@.skip(at as int)) is None,
            }),
        decreases f@.len() - i,
    {
        let ghost rem = f@.skip(i as int);
        proof {
            assert(rem[0] == f@[i as int]);
        }
        let b = f[i];
        if b == 34 {
            proof {
                assert(rem.drop_first() =~= f@.skip(i + 1 as int));
                assert(scan_string(rem) == Some((Seq::<u8>::empty(), f@.skip(i + 1 as int))));
                assert(acc@ + Seq::<u8>::empty() =~= acc@);
            }
            return Some((acc, i + 1));
        } else if b == 0x5c {
            if i + 1 < f.len() {
                proof {
                    assert(rem[1] == f@[i + 1 as int]);
                    assert(rem.len() >= 2);
                }
                let c = f[i + 1];
                if c == 0x22 || c == 0x5c || c == 0x6e || c == 0x72 || c == 0x74 || c == 0x62 || c
                    == 0x66 {
                    let u: u8 = if c == 0x22 {
                        0x22
                    } else if c == 0x5c {
                        0x5c
                    } else if c == 0x6e {
                        0x0a
                    } else if c == 0x72 {
                        0x0d
                    } else if c == 0x62 {
                        0x08
                    } else if c == 0x66 {
                        0x0c
                    } else {
                        0x09
                    };
                    let ghost prev = acc@;
                    acc.push(u);
                    proof {
                        assert(u == unesc_code(c));
                        assert(rem.skip(2) =~= f@.skip(i + 2 as int));
                        match scan_string(f@.skip(i + 2 as int)) {
                            Some(q) => {
                                assert(scan_string(rem) == Some((seq![u] + q.0, q.1)));
                                assert(prev + (seq![u] + q.0) =~= acc@ + q.0);
                            },
                            None => {
                                assert(scan_string(rem) is None);
                            },
                        }
                    }
                    i += 2;
                } else if c == 0x75 {
                    if f.len() - i >= 6 && f[i + 2] == 0x30 && f[i + 3] == 0x30 && ((0x30 <= f[i + 4]
                        && f[i + 4] <= 0x39) || (0x61 <= f[i + 4] && f[i + 4] <= 0x66)) && ((0x30
                        <= f[i + 5] && f[i + 5] <= 0x39) || (0x61 <= f[i + 5] && f[i + 5]
                        <= 0x66)) {
                        let d1 = f[i + 4];
                        let d2 = f[i + 5];
                        let h1: u8 = if d1 <= 0x39 {
                            d1 - 0x30
                        } else {
                            d1 - 0x61 + 10
                        };
                        let h2: u8 = if d2 <= 0x39 {
                            d2 - 0x30
                        } else {
                            d2 - 0x61 + 10
                        };
                        let u: u8 = h1 * 16 + h2;
                        let ghost prev = acc@;
                        acc.push(u);
                        proof {
                            assert(rem[2] == f@[i + 2 as int]);
                            assert(rem[3] == f@[i + 3 as int]);
                            assert(rem[4] == f@[i + 4 as int]);
                            assert(rem[5] == f@[i + 5 as int]);
                            assert(rem.len() >= 6);
                            assert(is_hex_lower(rem[4]) && is_hex_lower(rem[5]));
                            assert(h1 == hex_val(rem[4]) && h2 == hex_val(rem[5]));
                            assert(u == (hex_val(rem[4]) * 16 + hex_val(rem[5])) as u8);
                            assert(rem.skip(6) =~= f@.skip(i + 6 as int));
                            match scan_string(f@.skip(i + 6 as int)) {
                                Some(q) => {
                                    assert(scan_string(rem) == Some((seq![u] + q.0, q.1)));
                                    assert(prev + (seq![u] + q.0) =~= acc@ + q.0);
                                },
                                None => {
                                    assert(scan_string(rem) is None);
                                },
                            }
                        }
                        i += 6;
                    } else {
                        proof {
                            if rem.len() >= 6 {
                                assert(rem[2] == f@[i + 2 as int]);
                                assert(rem[3] == f@[i + 3 as int]);
                                assert(rem[4] == f@[i + 4 as int]);
                                assert(rem[5] == f@[i + 5 as int]);
                            }
                            assert(scan_string(rem) is None);
                        }
                        return None;
                    }
                } else {
                    proof {
                        assert(scan_string(rem) is None);
                    }
                    return None;
                }
            } else {
                proof {
                    assert(rem.len() == 1);
                    assert(scan_string(rem) is None);
                }
                return None;
            }
        } else if b >= 0x20 {
            let ghost prev = acc@;
            acc.push(b);
            proof {
                assert(rem.drop_first() =~= f@.skip(i + 1 as int));
                match scan_string(f@.skip(i + 1 as int)) {
                    Some(q) => {
                        assert(scan_string(rem) == Some((seq![b] + q.0, q.1)));
                        assert(prev + (seq![b] + q.0) =~= acc@ + q.0);
                    },
                    None => {
                        assert(scan_string(rem) is None);
                    },
                }
            }
            i += 1;
        } else {
            proof {
                assert(scan_string(rem) is None);
            }
            return None;
        }
    }
    proof {
        assert(f@.skip(i as int).len() == 0);
        assert(scan_string(f@.skip(i as int)) is None);
    }
    None
}

/// Powers of ten are positive.
proof fn lemma_pow10_pos(a: int)
    ensures
        pow10(a) >= 1,
    decreases a,
{
    if a > 0 {
        lemma_pow10_pos(a - 1);
    }
}

/// Powers of ten do not shrink as the exponent grows.
proof fn lemma_pow10_mono(a: int, b: int)
    requires
        a <= b,
    ensures
        pow10(a) <= pow10(b),
        pow10(a) >= 1,
    decreases b - a,
{
    lemma_pow10_pos(a);
    if a < b {
        lemma_pow10_mono(a, b - 1);
    }
}

/// Parse a decimal number at the cursor.
fn parse_num_from(f: &Vec<u8>, at: usize) -> (r: Option<(u32, usize)>)
    requires
        at <= f@.len(),
    ensures
        (match r {
            Some(p) => at <= p.1 <= f@.len() && parse_u32(f@.skip(at as int)) == Some(
                (p.0, f@.skip(p.1 as int)),
            ),
            None => parse_u32(f@.skip(at as int)) is None,
        }),
{
    let ghost rem = f@.skip(at as int);
    let mut j: usize = at;
    while j < f.len() && 0x30 <= f[j] && f[j] <= 0x39
        invariant
            at <= j <= f@.len(),
            rem == f@.skip(at as int),
            forall|k: int| at <= k < j ==> is_digit(#[trigger] f@[k]),
            digit_run(rem) == (j - at) + digit_run(f@.skip(j as int)),
        decreases f@.len() - j,
    {
        proof {
            assert(f@.skip(j as int)[0] == f@[j as int]);
            assert(f@.skip(j as int).drop_first() =~= f@.skip(j + 1 as int));
            assert(digit_run(f@.skip(j as int)) == 1 + digit_run(f@.skip(j + 1 as int)));
        }
        j += 1;
    }
    proof {
        if j < f@.len() {
            assert(f@.skip(j as int)[0] == f@[j as int]);
            assert(digit_run(f@.skip(j as int)) == 0);
        } else {
            assert(f@.skip(j as int).len() == 0);
            assert(digit_run(f@.skip(j as int)) == 0);
        }
        assert(digit_run(rem) == j - at);
    }
    let k = j - at;
    if k == 0 || k > 10 {
        return None;
    }
    let mut acc: u64 = 0;
    let mut idx: usize = at;
    proof {
        assert(f@.subrange(at as int, at as int) =~= Seq::<u8>::empty());
        lemma_pow10_mono(0, 0);
    }
    while idx < j
        invariant
            at <= idx <= j <= f@.len(),
            j - at <= 10,
            forall|k2: int| at <= k2 < j ==> is_digit(#[trigger] f@[k2]),
            acc == digits_val(f@.subrange(at as int, idx as int)),
            0 <= acc < pow10((idx - at) as int),
        decreases j - idx,
    {
        let d = f[idx];
        proof {
            assert(is_digit(f@[idx as int]));
            let sub1 = f@.subrange(at as int, idx + 1 as int);
            assert(sub1.drop_last() =~= f@.subrange(at as int, idx as int));
            assert(sub1.last() == f@[idx as int]);
            assert(forall|k2: int| 0 <= k2 < sub1.len() ==> is_digit(#[trigger] sub1[k2]));
            lemma_digits_val_bound(sub1);
            lemma_pow10_mono((idx + 1 - at) as int, 10);
            lemma_pow10_mono((idx - at) as int, 9);
            assert(pow10(10) == 10_000_000_000) by {
                reveal_with_fuel(pow10, 11);
            }
            assert(pow10(9) == 1_000_000_000) by {
                reveal_with_fuel(pow10, 10);
            }
        }
        acc = acc * 10 + (d - 0x30) as u64;
        idx += 1;
        proof {
            assert(acc == digits_val(f@.subrange(at as int, idx as int)));
        }
    }
    proof {
        assert(f@.subrange(at as int, j as int) =~= f@.skip(at as int).take(k as int));
    }
    if acc > 0xffff_ffff {
        return None;
    }
    proof {
        assert(f@.skip(at as int).skip(k as int) =~= f@.skip(j as int));
    }
    Some((acc as u32, j))
}

/// The mathematical image of an optional byte-string field.
pub open spec fn opt_bytes_view(o: Option<Vec<u8>>) -> Option<Seq<u8>> {
    match o {
        Some(v) => Some(v@),
        None => None,
    }
}

/// Decode an optional string field value at the cursor.
fn dec_opt_str_from(f: &Vec<u8>, at: usize) -> (r: Option<(Option<Vec<u8>>, usize)>)
    requires
        at <= f@.len(),
    ensures
        (match r {
            Some(p) => at <= p.1 <= f@.len() && dec_opt_str(f@.skip(at as int)) == Some(
                (opt_bytes_view(p.0), f@.skip(p.1 as int)),
            ),
            None => dec_opt_str(f@.skip(at as int)) is None,
        }),
{
    let nl = mk_null_lit();
    match eat(f, at, &nl) {
        Some(j) => {
            return Some((None, j));
        },
        None => {},
    }
    if at < f.len() && f[at] == 34 {
        proof {
            assert(f@.skip(at as int)[0] == f@[at as int]);
            assert(f@.skip(at as int).drop_first() =~= f@.skip(at + 1 as int));
        }
        match scan_string_from(f, at + 1) {
            Some(p) => Some((Some(p.0), p.1)),
            None => None,
        }
    } else {
        proof {
            if f@.skip(at as int).len() > 0 {
                assert(f@.skip(at as int)[0] == f@[at as int]);
            }
        }
        None
    }
}

/// Decode an optional number field value at the cursor.
fn dec_opt_num_from(f: &Vec<u8>, at: usize) -> (r: Option<(Option<u32>, usize)>)
    requires
        at <= f@.len(),
    ensures
        (match r {
            Some(p) => at <= p.1 <= f@.len() && dec_opt_num(f@.skip(at as int)) == Some(
                (p.0, f@.skip(p.1 as int)),
            ),
            None => dec_opt_num(f@.skip(at as int)) is None,
        }),
{
    let nl = mk_null_lit();
    match eat(f, at, &nl) {
        Some(j) => {
            return Some((None, j));
        },
        None => {},
    }
    match parse_num_from(f, at) {
        Some(p) => Some((Some(p.0), p.1)),
        None => None,
    }
}

/// Whether the frame ends with exactly one closing brace at the cursor.
fn at_closing_brace(f: &Vec<u8>, at: usize) -> (r: bool)
    requires
        at <= f@.len(),
    ensures
        r == (f@.skip(at as int) == close_lit()),
{
    if at < f.len() && f.len() - at == 1 && f[at] == 125 {
        proof {
            assert(f@.skip(at as int) =~= close_lit());
        }
        true
    } else {
        proof {
            if f@.skip(at as int) == close_lit() {
                assert(f@.skip(at as int).len() == 1);
                assert(f@.skip(at as int)[0] == f@[at as int]);
            }
        }
        false
    }
}

/// Decode a frame: the message it canonically encodes, or nothing for any
/// frame outside the grammar — which is dropped by callers, never acted on.
///
/// The grammar is deliberately canonical-only: no whitespace between
/// tokens, object keys in the fixed order of the envelope, and inside
/// strings only the short escapes `\" \\ \n \r \t \b \f` and
/// lowercase `\u00XX`. Frames from a freer JSON producer must be
/// normalized to this spelling before they reach the relay.
pub fn decode_message(f: &Vec<u8>) -> (r: Option<SignalingMessage>)
    ensures
        (match r {
            Some(m) => spec_decode(f@) == Some(m@),
            None => spec_decode(f@) is None,
        }),
{
    proof {
        assert(f@.skip(0) =~= f@);
    }
    let tk = mk_type_key();
    let j0 = match eat(f, 0, &tk) {
        Some(j) => j,
        None => {
            return None;
        },
    };
    let (tag, j1) = match scan_string_from(f, j0) {
        Some(p) => p,
        None => {
            return None;
        },
    };
    if crate::bytes::bytes_eq(&tag, &mk_tag_offer()) {
        let sk = mk_sdp_key();
        let j2 = match eat(f, j1, &sk) {
            Some(j) => j,
            None => {
                return None;
            },
        };
        let (sdp, j3) = match scan_string_from(f, j2) {
            Some(p) => p,
            None => {
                return None;
            },
        };
        if at_closing_brace(f, j3) {
            Some(SignalingMessage::Offer { sdp })
        } else {
            None
        }
    } else if crate::bytes::bytes_eq(&tag, &mk_tag_answer()) {
        let sk = mk_sdp_key();
        let j2 = match eat(f, j1, &sk) {
            Some(j) => j,
            None => {
                return None;
            },
        };
        let (sdp, j3) = match scan_string_from(f, j2) {
            Some(p) => p,
            None => {
                return None;
            },
        };
        if at_closing_brace(f, j3) {
            Some(SignalingMessage::Answer { sdp })
        } else {
            None
        }
    } else if crate::bytes::bytes_eq(&tag, &mk_tag_candidate()) {
        let ck = mk_cand_key();
        let j2 = match eat(f, j1, &ck) {
            Some(j) => j,
            None => {
                return None;
            },
        };
        let (candidate, j3) = match scan_string_from(f, j2) {
            Some(p) => p,
            None => {
                return None;
            },
        };
        let mk = mk_mid_key();
        let j4 = match eat(f, j3, &mk) {
            Some(j) => j,
            None => {
                return None;
            },
        };
        let (sdp_mid, j5) = match dec_opt_str_from(f, j4) {
            Some(p) => p,
            None => {
                return None;
            },
        };
        let lk = mk_mline_key();
        let j6 = match eat(f, j5, &lk) {
            Some(j) => j,
            None => {
                return None;
            },
        };
        let (sdp_mline_index, j7) = match dec_opt_num_from(f, j6) {
            Some(p) => p,
            None => {
                return None;
            },
        };
        if at_closing_brace(f, j7) {
            Some(SignalingMessage::Candidate { candidate, sdp_mid, sdp_mline_index })
        } else {
            None
        }
    } else if crate::bytes::bytes_eq(&tag, &mk_tag_image()) {
        let dk = mk_data_key();
        let j2 = match eat(f, j1, &dk) {
            Some(j) => j,
            None => {
                return None;
            },
        };
        let (data, j3) = match scan_string_from(f, j2) {
            Some(p) => p,
            None => {
                return None;
            },
        };
        if at_closing_brace(f, j3) {
            Some(SignalingMessage::Image { data })
        } else {
            None
        }
    } else if crate::bytes::bytes_eq(&tag, &mk_tag_trigger()) {
        if at_closing_brace(f, j1) {
            Some(SignalingMessage::TriggerImageCapture)
        } else {
            None
        }
    } else {
        None
    }
}


// ---------------------------------------------------------------------------
// Image payloads: the transfer segment of a data URL.
// ---------------------------------------------------------------------------
/// The first comma at or after `i`, or the length if there is none.
pub open spec fn find_comma(d: Seq<u8>, i: int) -> int
    decreases d.len() - i,
{
    if i < 0 || i >= d.len() {
        d.len() as int
    } else if d[i] == 44 {
        i
    } else {
        find_comma(d, i + 1)
    }
}

/// `find_comma` lands between `i` and the end, on a comma when below the
/// end, and skips no comma.
pub proof fn lemma_find_comma(d: Seq<u8>, i: int)
    requires
        0 <= i <= d.len(),
    ensures
        i <= find_comma(d, i) <= d.len(),
        find_comma(d, i) < d.len() ==> d[find_comma(d, i)] == 44,
        forall|k: int| i <= k < find_comma(d, i) ==> d[k] != 44,
    decreases d.len() - i,
{
    if i < d.len() && d[i] != 44 {
        lemma_find_comma(d, i + 1);
    }
}

/// The transfer segment of an image payload: the bytes between the first
/// comma and the following comma or the end; an uncommaed payload has an
/// empty segment.
pub open spec fn image_segment(d: Seq<u8>) -> Seq<u8> {
    let c1 = find_comma(d, 0);
    if c1 == d.len() {
        Seq::empty()
    } else {
        d.subrange(c1 + 1, find_comma(d, c1 + 1))
    }
}

/// Extract the transfer segment of an image payload.
pub fn image_payload(data: &Vec<u8>) -> (r: Vec<u8>)
    ensures
        r@ == image_segment(data@),
{
    let n = data.len();
    let mut i: usize = 0;
    while i < n && data[i] != 44
        invariant
            n == data@.len(),
            0 <= i <= n,
            find_comma(data@, 0) == find_comma(data@, i as int),
        decreases n - i,
    {
        proof {
            assert(find_comma(data@, i as int) == find_comma(data@, i + 1 as int));
        }
        i += 1;
    }
    proof {
        lemma_find_comma(data@, 0);
        if i < n {
            assert(find_comma(data@, i as int) == i);
        } else {
            assert(find_comma(data@, i as int) == n);
        }
    }
    if i == n {
        let r: Vec<u8> = Vec::new();
        proof {
            assert(r@ =~= image_segment(data@));
        }
        return r;
    }
    let c1 = i;
    let mut j: usize = c1 + 1;
    while j < n && data[j] != 44
        invariant
            n == data@.len(),
            c1 + 1 <= j <= n,
            find_comma(data@, c1 + 1 as int) == find_comma(data@, j as int),
        decreases n - j,
    {
        proof {
            assert(find_comma(data@, j as int) == find_comma(data@, j + 1 as int));
        }
        j += 1;
    }
    proof {
        if j < n {
            assert(find_comma(data@, j as int) == j);
        } else {
            assert(find_comma(data@, j as int) == n);
        }
    }
    let c2 = j;
    let mut out: Vec<u8> = Vec::new();
    let mut k: usize = c1 + 1;
    while k < c2
        invariant
            n == data@.len(),
            c1 + 1 <= k <= c2 <= n,
            out@ == data@.subrange(c1 + 1 as int, k as int),
        decreases c2 - k,
    {
        out.push(data[k]);
        proof {
            assert(out@ =~= data@.subrange(c1 + 1 as int, k + 1 as int));
        }
        k += 1;
    }
    proof {
        assert(out@ =~= image_segment(data@));
    }
    out
}

} // verus!
