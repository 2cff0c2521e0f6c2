//! Decoder for the FLP project container: a 14-byte header followed by a
//! chunk of tagged events.  Only wrong magic bytes and an incomplete header
//! are fatal; every other defect ends the event loop with a warning and the
//! metadata gathered so far is returned.

use vstd::prelude::*;
use crate::outside::{utf8_lossy_of, utf16_lossy_of, utf8_lossy, utf16_lossy};
use crate::text::{spec_dec, dec_u64, chars_of, string_of, sub_vec};
use vstd::string::StringExecFns;

verus! {

// Recognized event identifiers.
pub const EV_CHAN_TYPE: u8 = 21;
pub const EV_NEW_CHAN: u8 = 64;
pub const EV_NEW_PAT: u8 = 65;
pub const EV_TEMPO_LEGACY: u8 = 66;
pub const EV_TEMPO: u8 = 156;
pub const EV_TEXT_CHAN_NAME: u8 = 192;
pub const EV_VERSION: u8 = 199;
pub const EV_TEXT_PLUGIN_NAME: u8 = 201;

#[derive(Clone, Copy, PartialEq, Eq, Structural, Debug)]
pub enum ParseError {
    InvalidMagic,
    TruncatedHeader,
}

impl ParseError {
    /// A short human-readable description.
    pub fn message(&self) -> (r: String)
        ensures
            *self == ParseError::InvalidMagic ==>
                r@ == "Not a valid FLP file (wrong magic bytes)"@,
            *self == ParseError::TruncatedHeader ==> r@ == "FLP header is truncated"@,
    {
        match self {
            ParseError::InvalidMagic => "Not a valid FLP file (wrong magic bytes)".to_owned(),
            ParseError::TruncatedHeader => "FLP header is truncated".to_owned(),
        }
    }

    /// The variant name, as a debug formatter would render it.
    pub fn debug_text(&self) -> (r: String)
        ensures
            *self == ParseError::InvalidMagic ==> r@ == "InvalidMagic"@,
            *self == ParseError::TruncatedHeader ==> r@ == "TruncatedHeader"@,
    {
        match self {
            ParseError::InvalidMagic => "InvalidMagic".to_owned(),
            ParseError::TruncatedHeader => "TruncatedHeader".to_owned(),
        }
    }
}

/// One generator (instrument channel) assembled from the event stream.
#[derive(Clone, Debug)]
pub struct ChannelInfo {
    pub name: String,
    pub plugin_name: Option<String>,
    pub channel_type: u8,
}

pub ghost struct ChannelInfoV {
    pub name: Seq<char>,
    pub plugin_name: Option<Seq<char>>,
    pub channel_type: u8,
}

impl View for ChannelInfo {
    type V = ChannelInfoV;

    open spec fn view(&self) -> ChannelInfoV {
        ChannelInfoV {
            name: self.name@,
            plugin_name: self.plugin_name.deep_view(),
            channel_type: self.channel_type,
        }
    }
}

impl DeepView for ChannelInfo {
    type V = ChannelInfoV;

    open spec fn deep_view(&self) -> ChannelInfoV {
        self.view()
    }
}

/// Metadata extracted from one project file.  The tempo is kept in
/// milli-BPM (`bpm_millis`), so 128 BPM is stored as `128000`.
#[derive(Clone, Debug)]
pub struct FlpMetadata {
    pub bpm_millis: Option<u32>,
    pub time_sig_num: Option<u8>,
    pub time_sig_den: Option<u8>,
    pub channel_count: u16,
    pub pattern_count: u16,
    pub mixer_track_count: u16,
    pub generators: Vec<ChannelInfo>,
    pub effects: Vec<String>,
    pub fl_version: Option<String>,
    pub warnings: Vec<String>,
}

pub ghost struct FlpMetadataV {
    pub bpm_millis: Option<u32>,
    pub time_sig_num: Option<u8>,
    pub time_sig_den: Option<u8>,
    pub channel_count: u16,
    pub pattern_count: u16,
    pub mixer_track_count: u16,
    pub generators: Seq<ChannelInfoV>,
    pub effects: Seq<Seq<char>>,
    pub fl_version: Option<Seq<char>>,
    pub warnings: Seq<Seq<char>>,
}

impl View for FlpMetadata {
    type V = FlpMetadataV;

    open spec fn view(&self) -> FlpMetadataV {
        FlpMetadataV {
            bpm_millis: self.bpm_millis,
            time_sig_num: self.time_sig_num,
            time_sig_den: self.time_sig_den,
            channel_count: self.channel_count,
            pattern_count: self.pattern_count,
            mixer_track_count: self.mixer_track_count,
            generators: self.generators.deep_view(),
            effects: self.effects.deep_view(),
            fl_version: self.fl_version.deep_view(),
            warnings: self.warnings.deep_view(),
        }
    }
}

/// A little-endian 16-bit read.
pub open spec fn spec_le16(b0: u8, b1: u8) -> int {
    b0 + 256 * b1
}

/// A little-endian 32-bit read.
pub open spec fn spec_le32(b0: u8, b1: u8, b2: u8, b3: u8) -> int {
    b0 + 256 * b1 + 65536 * b2 + 16777216 * b3
}

fn le16(b0: u8, b1: u8) -> (r: u16)
    ensures
        r as int == spec_le16(b0, b1),
{
    b0 as u16 + 256 * (b1 as u16)
}

fn le32(b0: u8, b1: u8, b2: u8, b3: u8) -> (r: u32)
    ensures
        r as int == spec_le32(b0, b1, b2, b3),
{
    b0 as u32 + 256 * (b1 as u32) + 65536 * (b2 as u32) + 16777216 * (b3 as u32)
}

/// Little-endian base-128 integer starting at `i`: seven payload bits per
/// byte, high bit means another byte follows; fails past the end of `s` or
/// when the shift would reach 64.  Yields the value and the next index.
pub open spec fn spec_varint(s: Seq<u8>, i: int, shift: u32, acc: u64) -> Option<(u64, int)>
    decreases s.len() - i,
{
    if i < 0 || i >= s.len() {
        None
    } else {
        let b = s[i];
        let acc2 = acc | (((b & 0x7f) as u64) << shift);
        if b & 0x80 == 0 {
            Some((acc2, i + 1))
        } else if shift + 7 >= 64 {
            None
        } else {
            spec_varint(s, i + 1, (shift + 7) as u32, acc2)
        }
    }
}

pub proof fn lemma_varint_next(s: Seq<u8>, i: int, shift: u32, acc: u64)
    requires
        spec_varint(s, i, shift, acc) is Some,
    ensures
        i < (spec_varint(s, i, shift, acc)->0).1 <= s.len(),
    decreases s.len() - i,
{
    let b = s[i];
    let acc2 = acc | (((b & 0x7f) as u64) << shift);
    if b & 0x80 == 0 {
    } else {
        lemma_varint_next(s, i + 1, (shift + 7) as u32, acc2);
    }
}

/// Reads a varint from `bytes` at `pos`; `None` means the buffer ended or
/// the value would overflow.
pub fn read_varint(bytes: &[u8], pos: usize) -> (r: Option<(u64, usize)>)
    requires
        pos <= bytes@.len(),
    ensures
        (r is Some) == (spec_varint(bytes@, pos as int, 0, 0) is Some),
        r is Some ==> (r->0).0 == (spec_varint(bytes@, pos as int, 0, 0)->0).0
            && ((r->0).1 as int) == (spec_varint(bytes@, pos as int, 0, 0)->0).1,
{
    let ghost s = bytes@;
    let n = bytes.len();
    let mut i = pos;
    let mut shift: u32 = 0;
    let mut acc: u64 = 0;
    loop
        invariant
            pos <= i <= n,
            n == s.len(),
            bytes@ == s,
            shift < 64,
            spec_varint(s, pos as int, 0, 0) == spec_varint(s, i as int, shift, acc),
        decreases n - i,
    {
        if i >= n {
            return None;
        }
        let b = bytes[i];
        let acc2: u64 = acc | (((b & 0x7f) as u64) << shift);
        if b & 0x80 == 0 {
            proof {
                lemma_varint_next(s, i as int, shift, acc);
            }
            return Some((acc2, i + 1));
        }
        if shift + 7 >= 64 {
            return None;
        }
        acc = acc2;
        shift = shift + 7;
        i = i + 1;
    }
}

/// Trailing NUL characters removed.
pub open spec fn strip_nuls(s: Seq<char>) -> Seq<char>
    decreases s.len(),
{
    if s.len() > 0 && s.last() == '\u{0}' {
        strip_nuls(s.drop_last())
    } else {
        s
    }
}

/// The UTF-16 code units of `p`, two bytes each, little endian; a trailing
/// odd byte is dropped.
pub open spec fn units_of(p: Seq<u8>) -> Seq<u16>
    decreases p.len(),
{
    if p.len() < 2 {
        Seq::empty()
    } else {
        seq![(spec_le16(p[0], p[1])) as u16] + units_of(p.skip(2))
    }
}

/// How a text payload decodes: a UTF-16 BOM wins, then the "ASCII-ish
/// UTF-16 without BOM" heuristic (even length, zero high bytes at offsets
/// one and three), else lossy UTF-8; trailing NULs go in every case.
pub open spec fn spec_decode(p: Seq<u8>) -> Seq<char> {
    if p.len() >= 2 && p[0] == 0xff && p[1] == 0xfe {
        strip_nuls(utf16_lossy_of(units_of(p.skip(2))))
    } else if p.len() >= 4 && p.len() % 2 == 0 && p[1] == 0 && p[3] == 0 {
        strip_nuls(utf16_lossy_of(units_of(p)))
    } else {
        strip_nuls(utf8_lossy_of(p))
    }
}

fn units_vec(p: &[u8], start: usize) -> (u: Vec<u16>)
    requires
        start <= p@.len(),
    ensures
        u@ == units_of(p@.skip(start as int)),
{
    let n = p.len();
    let mut u: Vec<u16> = Vec::new();
    let mut i = start;
    while n - i >= 2
        invariant
            start <= i <= n,
            n == p@.len(),
            units_of(p@.skip(start as int)) == u@ + units_of(p@.skip(i as int)),
        decreases n - i,
    {
        let ghost tail = p@.skip(i as int);
        let w = le16(p[i], p[i + 1]);
        proof {
            assert(tail[0] == p@[i as int]);
            assert(tail[1] == p@[i as int + 1]);
            assert(tail.skip(2) =~= p@.skip(i as int + 2));
            assert(units_of(tail) == seq![(spec_le16(tail[0], tail[1])) as u16]
                + units_of(p@.skip(i as int + 2)));
        }
        u.push(w);
        assert(u@ + units_of(p@.skip(i as int + 2)) =~= units_of(p@.skip(start as int)));
        i = i + 2;
    }
    assert(units_of(p@.skip(i as int)) =~= Seq::<u16>::empty());
    assert(u@ =~= units_of(p@.skip(start as int)));
    u
}

fn strip_nuls_string(s: &String) -> (r: String)
    ensures
        r@ == strip_nuls(s@),
{
    let v = chars_of(s.as_str());
    let mut j = v.len();
    assert(v@.take(j as int) =~= v@);
    while j > 0 && v[j - 1] == '\u{0}'
        invariant
            j <= v@.len(),
            strip_nuls(v@) == strip_nuls(v@.take(j as int)),
        decreases j,
    {
        assert(v@.take(j as int).last() == v@[j - 1]);
        assert(v@.take(j as int).drop_last() =~= v@.take(j - 1));
        j = j - 1;
    }
    assert(j == 0 || v@.take(j as int).last() == v@[j as int - 1]);
    assert(strip_nuls(v@.take(j as int)) == v@.take(j as int));
    let out = sub_vec(&v, 0, j);
    string_of(&out)
}

/// Decodes a text payload as the format stores it.
pub fn decode_string(bytes: &[u8]) -> (r: String)
    ensures
        r@ == spec_decode(bytes@),
{
    let n = bytes.len();
    if n >= 2 && bytes[0] == 0xff && bytes[1] == 0xfe {
        let units = units_vec(bytes, 2);
        let s = utf16_lossy(units.as_slice());
        strip_nuls_string(&s)
    } else if n >= 4 && n % 2 == 0 && bytes[1] == 0 && bytes[3] == 0 {
        let units = units_vec(bytes, 0);
        assert(bytes@.skip(0) =~= bytes@);
        let s = utf16_lossy(units.as_slice());
        strip_nuls_string(&s)
    } else {
        let s = utf8_lossy(bytes);
        strip_nuls_string(&s)
    }
}

// ---- warning texts -------------------------------------------------------

pub open spec fn trunc_msg(prefix: Seq<char>, id: u8) -> Seq<char> {
    prefix + spec_dec(id as int) + " — partial data returned"@
}

pub open spec fn legacy_oob_msg(v: int) -> Seq<char> {
    "Legacy BPM "@ + spec_dec(v) + " out of sane range (1-999) — ignoring"@
}

/// Fractional thousandths with trailing zeros dropped.
pub open spec fn frac3(m: int) -> Seq<char> {
    let d2 = crate::text::spec_digit(m / 100);
    let d1 = crate::text::spec_digit((m / 10) % 10);
    let d0 = crate::text::spec_digit(m % 10);
    if m % 10 != 0 {
        seq![d2, d1, d0]
    } else if (m / 10) % 10 != 0 {
        seq![d2, d1]
    } else {
        seq![d2]
    }
}

/// A milli-BPM value rendered as a decimal BPM number.
pub open spec fn millis_dec(v: int) -> Seq<char> {
    if v % 1000 == 0 {
        spec_dec(v / 1000)
    } else {
        spec_dec(v / 1000) + "."@ + frac3(v % 1000)
    }
}

pub open spec fn modern_oob_msg(v: int) -> Seq<char> {
    "Modern BPM "@ + millis_dec(v) + " out of sane range (1-999) — ignoring"@
}

fn dec_string(n: u64) -> (r: String)
    ensures
        r@ == spec_dec(n as int),
{
    let v = dec_u64(n);
    string_of(&v)
}

fn trunc_warning(prefix: &str, id: u8) -> (r: String)
    ensures
        r@ == trunc_msg(prefix@, id),
{
    let mut w = prefix.to_owned();
    let num = dec_string(id as u64);
    w.append(num.as_str());
    w.append(" — partial data returned");
    w
}

fn legacy_oob_warning(v: u16) -> (r: String)
    ensures
        r@ == legacy_oob_msg(v as int),
{
    let mut w = "Legacy BPM ".to_owned();
    let num = dec_string(v as u64);
    w.append(num.as_str());
    w.append(" out of sane range (1-999) — ignoring");
    w
}

fn modern_oob_warning(v: u32) -> (r: String)
    ensures
        r@ == modern_oob_msg(v as int),
{
    let mut w = "Modern BPM ".to_owned();
    let whole = dec_string((v / 1000) as u64);
    w.append(whole.as_str());
    let m = v % 1000;
    if m != 0 {
        w.append(".");
        let mut frac: Vec<char> = Vec::new();
        frac.push(digit_of(m / 100));
        if m % 10 != 0 {
            frac.push(digit_of((m / 10) % 10));
            frac.push(digit_of(m % 10));
        } else if (m / 10) % 10 != 0 {
            frac.push(digit_of((m / 10) % 10));
        }
        assert(frac@ =~= frac3(m as int));
        let fs = string_of(&frac);
        w.append(fs.as_str());
    }
    w.append(" out of sane range (1-999) — ignoring");
    assert(w@ =~= modern_oob_msg(v as int));
    w
}

fn digit_of(d: u32) -> (c: char)
    requires
        d < 10,
    ensures
        c == crate::text::spec_digit(d as int),
{
    match d {
        0 => '0', 1 => '1', 2 => '2', 3 => '3', 4 => '4',
        5 => '5', 6 => '6', 7 => '7', 8 => '8', _ => '9',
    }
}

// ---- the event interpreter ----------------------------------------------

/// The full parser state while walking the event chunk.
pub ghost struct PState {
    pub pattern_count: int,
    pub legacy: Option<u32>,
    pub modern: Option<u32>,
    pub cur_name: Option<Seq<char>>,
    pub cur_plugin: Option<Seq<char>>,
    pub cur_type: u8,
    pub in_channel: bool,
    pub generators: Seq<ChannelInfoV>,
    pub fl_version: Option<Seq<char>>,
    pub warnings: Seq<Seq<char>>,
}

pub open spec fn init_state() -> PState {
    PState {
        pattern_count: 0,
        legacy: None,
        modern: None,
        cur_name: None,
        cur_plugin: None,
        cur_type: 0,
        in_channel: false,
        generators: Seq::empty(),
        fl_version: None,
        warnings: Seq::empty(),
    }
}

/// Appends the pending channel if one is in progress — that is, if a "new
/// channel" event opened it or a stray name event populated it.
pub open spec fn flush(st: PState) -> PState {
    if st.in_channel || st.cur_name is Some {
        PState {
            generators: st.generators.push(ChannelInfoV {
                name: if st.cur_name is Some { st.cur_name->0 } else { Seq::empty() },
                plugin_name: st.cur_plugin,
                channel_type: st.cur_type,
            }),
            cur_name: None,
            cur_plugin: None,
            cur_type: 0,
            in_channel: false,
            ..st
        }
    } else {
        st
    }
}

pub open spec fn warn(st: PState, msg: Seq<char>) -> PState {
    PState { warnings: st.warnings.push(msg), ..st }
}

pub open spec fn apply_byte(st: PState, id: u8, v: u8) -> PState {
    if id == EV_CHAN_TYPE {
        PState { cur_type: v, ..st }
    } else {
        st
    }
}

pub open spec fn apply_word(st: PState, id: u8, v: int) -> PState {
    if id == EV_NEW_CHAN {
        PState { in_channel: true, ..flush(st) }
    } else if id == EV_NEW_PAT {
        PState { pattern_count: (st.pattern_count + 1) % 0x10000, ..st }
    } else if id == EV_TEMPO_LEGACY {
        if 1 <= v && v <= 999 {
            PState { legacy: Some((v * 1000) as u32), ..st }
        } else {
            warn(st, legacy_oob_msg(v))
        }
    } else {
        st
    }
}

pub open spec fn apply_dword(st: PState, id: u8, v: int) -> PState {
    if id == EV_TEMPO {
        if 1000 <= v && v <= 999000 {
            PState { modern: Some(v as u32), ..st }
        } else {
            warn(st, modern_oob_msg(v))
        }
    } else {
        st
    }
}

pub open spec fn apply_text(st: PState, id: u8, text: Seq<char>) -> PState {
    if id == EV_TEXT_CHAN_NAME {
        PState { cur_name: Some(text), ..st }
    } else if id == EV_VERSION {
        PState { fl_version: Some(text), ..st }
    } else if id == EV_TEXT_PLUGIN_NAME {
        PState { cur_plugin: Some(text), ..st }
    } else {
        st
    }
}

/// Walks the events of `b` from `pos` to the end, folding them into the
/// state; a read past the end records one truncation warning and stops.
#[verifier::opaque]
pub open spec fn run_from(b: Seq<u8>, pos: int, st: PState) -> PState
    decreases b.len() - pos,
    via run_from_decreases
{
    if pos < 0 || pos >= b.len() {
        st
    } else {
        let id = b[pos];
        if id < 64 {
            if pos + 2 > b.len() {
                warn(st, trunc_msg("Truncated at BYTE event "@, id))
            } else {
                run_from(b, pos + 2, apply_byte(st, id, b[pos + 1]))
            }
        } else if id < 128 {
            if pos + 3 > b.len() {
                warn(st, trunc_msg("Truncated at WORD event "@, id))
            } else {
                run_from(b, pos + 3, apply_word(st, id, spec_le16(b[pos + 1], b[pos + 2])))
            }
        } else if id < 192 {
            if pos + 5 > b.len() {
                warn(st, trunc_msg("Truncated at DWORD event "@, id))
            } else {
                run_from(b, pos + 5,
                    apply_dword(st, id, spec_le32(b[pos + 1], b[pos + 2], b[pos + 3], b[pos + 4])))
            }
        } else {
            let vi = spec_varint(b, pos + 1, 0, 0);
            if vi is None {
                warn(st, trunc_msg("Truncated varint at TEXT event "@, id))
            } else {
                let len = (vi->0).0 as int;
                let next = (vi->0).1;
                if b.len() - next < len {
                    warn(st, trunc_msg("Truncated payload at TEXT event "@, id))
                } else {
                    run_from(b, next + len,
                        apply_text(st, id, spec_decode(b.subrange(next, next + len))))
                }
            }
        }
    }
}

#[via_fn]
proof fn run_from_decreases(b: Seq<u8>, pos: int, st: PState) {
    if 0 <= pos < b.len() && b[pos] >= 192 {
        if spec_varint(b, pos + 1, 0, 0) is Some {
            lemma_varint_next(b, pos + 1, 0, 0);
        }
    }
}


// Step lemmas: one definitional unfolding of `run_from` per event shape.

pub proof fn lemma_run_end(b: Seq<u8>, pos: int, st: PState)
    requires
        pos >= b.len() || pos < 0,
    ensures
        run_from(b, pos, st) == st,
{
    reveal(run_from);
}

pub proof fn lemma_run_byte(b: Seq<u8>, pos: int, st: PState)
    requires
        0 <= pos < b.len(),
        b[pos] < 64,
        pos + 2 <= b.len(),
    ensures
        run_from(b, pos, st) == run_from(b, pos + 2, apply_byte(st, b[pos], b[pos + 1])),
{
    reveal(run_from);
}

pub proof fn lemma_run_byte_trunc(b: Seq<u8>, pos: int, st: PState)
    requires
        0 <= pos < b.len(),
        b[pos] < 64,
        pos + 2 > b.len(),
    ensures
        run_from(b, pos, st) == warn(st, trunc_msg("Truncated at BYTE event "@, b[pos])),
{
    reveal(run_from);
}

pub proof fn lemma_run_word(b: Seq<u8>, pos: int, st: PState)
    requires
        0 <= pos < b.len(),
        64 <= b[pos] < 128,
        pos + 3 <= b.len(),
    ensures
        run_from(b, pos, st) == run_from(b, pos + 3,
            apply_word(st, b[pos], spec_le16(b[pos + 1], b[pos + 2]))),
{
    reveal(run_from);
}

pub proof fn lemma_run_word_trunc(b: Seq<u8>, pos: int, st: PState)
    requires
        0 <= pos < b.len(),
        64 <= b[pos] < 128,
        pos + 3 > b.len(),
    ensures
        run_from(b, pos, st) == warn(st, trunc_msg("Truncated at WORD event "@, b[pos])),
{
    reveal(run_from);
}

pub proof fn lemma_run_dword(b: Seq<u8>, pos: int, st: PState)
    requires
        0 <= pos < b.len(),
        128 <= b[pos] < 192,
        pos + 5 <= b.len(),
    ensures
        run_from(b, pos, st) == run_from(b, pos + 5,
            apply_dword(st, b[pos], spec_le32(b[pos + 1], b[pos + 2], b[pos + 3], b[pos + 4]))),
{
    reveal(run_from);
}

pub proof fn lemma_run_dword_trunc(b: Seq<u8>, pos: int, st: PState)
    requires
        0 <= pos < b.len(),
        128 <= b[pos] < 192,
        pos + 5 > b.len(),
    ensures
        run_from(b, pos, st) == warn(st, trunc_msg("Truncated at DWORD event "@, b[pos])),
{
    reveal(run_from);
}

pub proof fn lemma_run_text_varint_trunc(b: Seq<u8>, pos: int, st: PState)
    requires
        0 <= pos < b.len(),
        b[pos] >= 192,
        spec_varint(b, pos + 1, 0, 0) is None,
    ensures
        run_from(b, pos, st) == warn(st, trunc_msg("Truncated varint at TEXT event "@, b[pos])),
{
    reveal(run_from);
}

pub proof fn lemma_run_text_payload_trunc(b: Seq<u8>, pos: int, st: PState)
    requires
        0 <= pos < b.len(),
        b[pos] >= 192,
        spec_varint(b, pos + 1, 0, 0) is Some,
        b.len() - (spec_varint(b, pos + 1, 0, 0)->0).1 < (spec_varint(b, pos + 1, 0, 0)->0).0,
    ensures
        run_from(b, pos, st) == warn(st, trunc_msg("Truncated payload at TEXT event "@, b[pos])),
{
    reveal(run_from);
}

pub proof fn lemma_run_text(b: Seq<u8>, pos: int, st: PState)
    requires
        0 <= pos < b.len(),
        b[pos] >= 192,
        spec_varint(b, pos + 1, 0, 0) is Some,
        b.len() - (spec_varint(b, pos + 1, 0, 0)->0).1 >= (spec_varint(b, pos + 1, 0, 0)->0).0,
    ensures
        ({
            let len = ((spec_varint(b, pos + 1, 0, 0)->0).0) as int;
            let next = (spec_varint(b, pos + 1, 0, 0)->0).1;
            run_from(b, pos, st) == run_from(b, next + len,
                apply_text(st, b[pos], spec_decode(b.subrange(next, next + len))))
        }),
{
    reveal(run_from);
}

/// Closes the walk: flush the pending channel, resolve the tempo (the
/// modern event wins), and note a missing tempo.
pub open spec fn finish_state(st0: PState, channel_count: u16) -> FlpMetadataV {
    let st = flush(st0);
    let bpm = if st.modern is Some {
        st.modern
    } else {
        st.legacy
    };
    let warnings = if bpm is None {
        st.warnings.push("No BPM event found in file"@)
    } else {
        st.warnings
    };
    FlpMetadataV {
        bpm_millis: bpm,
        time_sig_num: None,
        time_sig_den: None,
        channel_count: channel_count,
        pattern_count: st.pattern_count as u16,
        mixer_track_count: 0,
        generators: st.generators,
        effects: Seq::empty(),
        fl_version: st.fl_version,
        warnings: warnings,
    }
}

/// The bytes of the header magic `FLhd`.
pub open spec fn flhd() -> Seq<u8> {
    seq![0x46u8, 0x4cu8, 0x68u8, 0x64u8]
}

/// The bytes of the data-chunk magic `FLdt`.
pub open spec fn fldt() -> Seq<u8> {
    seq![0x46u8, 0x4cu8, 0x64u8, 0x74u8]
}

/// Metadata carrying only the header fields.
pub open spec fn header_meta(channel_count: u16, warnings: Seq<Seq<char>>) -> FlpMetadataV {
    FlpMetadataV {
        bpm_millis: None,
        time_sig_num: None,
        time_sig_den: None,
        channel_count: channel_count,
        pattern_count: 0,
        mixer_track_count: 0,
        generators: Seq::empty(),
        effects: Seq::empty(),
        fl_version: None,
        warnings: warnings,
    }
}

/// What parsing a buffer yields.  Wrong or short magic is fatal, as is a
/// header cut before its fourteenth byte; an absent or replaced data-chunk
/// magic gives header-only metadata with a warning; otherwise the event
/// walk starts at byte 22.
pub open spec fn spec_parse(bytes: Seq<u8>) -> Result<FlpMetadataV, ParseError> {
    if bytes.len() < 4 {
        Err(ParseError::InvalidMagic)
    } else if bytes.subrange(0, 4) != flhd() {
        Err(ParseError::InvalidMagic)
    } else if bytes.len() < 14 {
        Err(ParseError::TruncatedHeader)
    } else {
        let cc = spec_le16(bytes[10], bytes[11]) as u16;
        if bytes.len() < 18 || bytes.subrange(14, 18) != fldt() {
            Ok(header_meta(cc, seq!["FLdt chunk not found"@]))
        } else {
            Ok(finish_state(run_from(bytes, 22, init_state()), cc))
        }
    }
}

/// The in-progress parse, the executable twin of `PState`.
struct EventWalk {
    pattern_count: u16,
    legacy: Option<u32>,
    modern: Option<u32>,
    cur_name: Option<String>,
    cur_plugin: Option<String>,
    cur_type: u8,
    in_channel: bool,
    generators: Vec<ChannelInfo>,
    fl_version: Option<String>,
    warnings: Vec<String>,
}

impl View for EventWalk {
    type V = PState;

    closed spec fn view(&self) -> PState {
        PState {
            pattern_count: self.pattern_count as int,
            legacy: self.legacy,
            modern: self.modern,
            cur_name: self.cur_name.deep_view(),
            cur_plugin: self.cur_plugin.deep_view(),
            cur_type: self.cur_type,
            in_channel: self.in_channel,
            generators: self.generators.deep_view(),
            fl_version: self.fl_version.deep_view(),
            warnings: self.warnings.deep_view(),
        }
    }
}

impl EventWalk {
    fn new() -> (r: EventWalk)
        ensures
            r@ == init_state(),
    {
        let r = EventWalk {
            pattern_count: 0,
            legacy: None,
            modern: None,
            cur_name: None,
            cur_plugin: None,
            cur_type: 0,
            in_channel: false,
            generators: Vec::new(),
            fl_version: None,
            warnings: Vec::new(),
        };
        proof {
            assert(r@.generators =~= init_state().generators);
            assert(r@.warnings =~= init_state().warnings);
        }
        r
    }

    fn push_warning(&mut self, w: String)
        ensures
            final(self)@ == warn(old(self)@, w@),
    {
        let ghost w0 = self.warnings.deep_view();
        self.warnings.push(w);
        proof {
            assert(self.warnings.deep_view() =~= warn(old(self)@, w@).warnings);
        }
    }

    fn flush_pending(&mut self)
        ensures
            final(self)@ == flush(old(self)@),
    {
        if self.in_channel || self.cur_name.is_some() {
            let ghost g0 = self.generators.deep_view();
            let nm = match self.cur_name.take() {
                Some(s) => s,
                None => String::new(),
            };
            let pl = self.cur_plugin.take();
            let info = ChannelInfo {
                name: nm,
                plugin_name: pl,
                channel_type: self.cur_type,
            };
            self.generators.push(info);
            self.cur_type = 0;
            self.in_channel = false;
            proof {
                assert(self.generators.deep_view() =~= flush(old(self)@).generators);
            }
        }
    }

    fn apply_byte_ev(&mut self, id: u8, v: u8)
        ensures
            final(self)@ == apply_byte(old(self)@, id, v),
    {
        if id == EV_CHAN_TYPE {
            self.cur_type = v;
        }
    }

    fn apply_word_ev(&mut self, id: u8, v: u16)
        ensures
            final(self)@ == apply_word(old(self)@, id, v as int),
    {
        if id == EV_NEW_CHAN {
            self.flush_pending();
            self.in_channel = true;
        } else if id == EV_NEW_PAT {
            self.pattern_count = if self.pattern_count == 0xffff {
                0
            } else {
                self.pattern_count + 1
            };
        } else if id == EV_TEMPO_LEGACY {
            if 1 <= v && v <= 999 {
                self.legacy = Some(v as u32 * 1000);
            } else {
                self.push_warning(legacy_oob_warning(v));
            }
        }
    }

    fn apply_dword_ev(&mut self, id: u8, v: u32)
        ensures
            final(self)@ == apply_dword(old(self)@, id, v as int),
    {
        if id == EV_TEMPO {
            if 1000 <= v && v <= 999000 {
                self.modern = Some(v);
            } else {
                self.push_warning(modern_oob_warning(v));
            }
        }
    }

    fn apply_text_ev(&mut self, id: u8, text: String)
        ensures
            final(self)@ == apply_text(old(self)@, id, text@),
    {
        if id == EV_TEXT_CHAN_NAME {
            self.cur_name = Some(text);
        } else if id == EV_VERSION {
            self.fl_version = Some(text);
        } else if id == EV_TEXT_PLUGIN_NAME {
            self.cur_plugin = Some(text);
        }
    }

    fn finish(self, channel_count: u16) -> (m: FlpMetadata)
        ensures
            m@ == finish_state(self@, channel_count),
    {
        let ghost st0 = self@;
        let mut w = self;
        w.flush_pending();
        let bpm_millis = match w.modern {
            Some(v) => Some(v),
            None => w.legacy,
        };
        if bpm_millis.is_none() {
            w.push_warning("No BPM event found in file".to_owned());
        }
        let m = FlpMetadata {
            bpm_millis: bpm_millis,
            time_sig_num: None,
            time_sig_den: None,
            channel_count: channel_count,
            pattern_count: w.pattern_count,
            mixer_track_count: 0,
            generators: w.generators,
            effects: Vec::new(),
            fl_version: w.fl_version,
            warnings: w.warnings,
        };
        proof {
            assert(m@.effects =~= finish_state(st0, channel_count).effects);
        }
        m
    }
}

/// Parses one project file from raw bytes.  Fatal errors are wrong magic
/// and a truncated header; everything else comes back as `Ok` metadata
/// with warnings.
#[verifier::rlimit(60)]
pub fn parse_flp(bytes: &[u8]) -> (r: Result<FlpMetadata, ParseError>)
    ensures
        (r is Ok) == (spec_parse(bytes@) is Ok),
        r matches Ok(m) ==> m@ == spec_parse(bytes@)->Ok_0,
        r matches Err(e) ==> e == spec_parse(bytes@)->Err_0,
{
    let n = bytes.len();
    if n < 4 {
        return Err(ParseError::InvalidMagic);
    }
    if !(bytes[0] == 0x46 && bytes[1] == 0x4c && bytes[2] == 0x68 && bytes[3] == 0x64) {
        proof {
            if bytes@.subrange(0, 4) == flhd() {
                assert(bytes@.subrange(0, 4)[0] == 0x46u8);
                assert(bytes@.subrange(0, 4)[1] == 0x4cu8);
                assert(bytes@.subrange(0, 4)[2] == 0x68u8);
                assert(bytes@.subrange(0, 4)[3] == 0x64u8);
            }
        }
        return Err(ParseError::InvalidMagic);
    }
    proof {
        assert(bytes@.subrange(0, 4) =~= flhd());
    }
    if n < 14 {
        return Err(ParseError::TruncatedHeader);
    }
    let cc = le16(bytes[10], bytes[11]);
    if n < 18
        || !(bytes[14] == 0x46 && bytes[15] == 0x4c && bytes[16] == 0x64 && bytes[17] == 0x74) {
        proof {
            if n >= 18 && bytes@.subrange(14, 18) == fldt() {
                assert(bytes@.subrange(14, 18)[0] == 0x46u8);
                assert(bytes@.subrange(14, 18)[1] == 0x4cu8);
                assert(bytes@.subrange(14, 18)[2] == 0x64u8);
                assert(bytes@.subrange(14, 18)[3] == 0x74u8);
            }
        }
        let mut warnings: Vec<String> = Vec::new();
        warnings.push("FLdt chunk not found".to_owned());
        let m = FlpMetadata {
            bpm_millis: None,
            time_sig_num: None,
            time_sig_den: None,
            channel_count: cc,
            pattern_count: 0,
            mixer_track_count: 0,
            generators: Vec::new(),
            effects: Vec::new(),
            fl_version: None,
            warnings: warnings,
        };
        proof {
            let hm = header_meta(cc, seq!["FLdt chunk not found"@]);
            assert(m@.generators =~= hm.generators);
            assert(m@.effects =~= hm.effects);
            assert(m@.warnings =~= hm.warnings);
        }
        return Ok(m);
    }
    proof {
        assert(bytes@.subrange(14, 18) =~= fldt());
    }

    let mut pos: usize = if n < 22 { n } else { 22 };
    let mut st = EventWalk::new();
    proof {
        if n < 22 {
            lemma_run_end(bytes@, 22, init_state());
            lemma_run_end(bytes@, pos as int, init_state());
        }
    }

    loop
        invariant_except_break
            run_from(bytes@, 22, init_state()) == run_from(bytes@, pos as int, st@),
        invariant
            pos <= n,
            n == bytes@.len(),
            n >= 18,
        ensures
            run_from(bytes@, 22, init_state()) == st@,
        decreases n - pos,
    {
        let ghost st_pre = st@;
        let ghost pos0 = pos as int;
        if pos >= n {
            proof {
                lemma_run_end(bytes@, pos0, st_pre);
            }
            break;
        }
        let id = bytes[pos];
        if id < 64 {
            if n - pos < 2 {
                proof {
                    lemma_run_byte_trunc(bytes@, pos0, st_pre);
                }
                st.push_warning(trunc_warning("Truncated at BYTE event ", id));
                break;
            }
            proof {
                lemma_run_byte(bytes@, pos0, st_pre);
            }
            let v = bytes[pos + 1];
            st.apply_byte_ev(id, v);
            pos = pos + 2;
        } else if id < 128 {
            if n - pos < 3 {
                proof {
                    lemma_run_word_trunc(bytes@, pos0, st_pre);
                }
                st.push_warning(trunc_warning("Truncated at WORD event ", id));
                break;
            }
            proof {
                lemma_run_word(bytes@, pos0, st_pre);
            }
            let v = le16(bytes[pos + 1], bytes[pos + 2]);
            st.apply_word_ev(id, v);
            pos = pos + 3;
        } else if id < 192 {
            if n - pos < 5 {
                proof {
                    lemma_run_dword_trunc(bytes@, pos0, st_pre);
                }
                st.push_warning(trunc_warning("Truncated at DWORD event ", id));
                break;
            }
            proof {
                lemma_run_dword(bytes@, pos0, st_pre);
            }
            let v = le32(bytes[pos + 1], bytes[pos + 2], bytes[pos + 3], bytes[pos + 4]);
            st.apply_dword_ev(id, v);
            pos = pos + 5;
        } else {
            match read_varint(bytes, pos + 1) {
                None => {
                    proof {
                        lemma_run_text_varint_trunc(bytes@, pos0, st_pre);
                    }
                    st.push_warning(trunc_warning("Truncated varint at TEXT event ", id));
                    break;
                },
                Some((len64, next)) => {
                    proof {
                        lemma_varint_next(bytes@, pos as int + 1, 0, 0);
                    }
                    if len64 > (n - next) as u64 {
                        proof {
                            lemma_run_text_payload_trunc(bytes@, pos0, st_pre);
                        }
                        st.push_warning(trunc_warning("Truncated payload at TEXT event ", id));
                        break;
                    }
                    proof {
                        lemma_run_text(bytes@, pos0, st_pre);
                    }
                    let len = len64 as usize;
                    let payload = vstd::slice::slice_subrange(bytes, next, next + len);
                    let text = decode_string(payload);
                    st.apply_text_ev(id, text);
                    pos = next + len;
                },
            }
        }
    }

    Ok(st.finish(cc))
}


// ---- facts about tempo events -------------------------------------------

/// A concrete corollary of `lemma_tempo_resolution`: a buffer holding a
/// valid header, the data chunk, and one modern-tempo event with an
/// in-range value parses to exactly that tempo.
pub proof fn lemma_modern_tempo(b: Seq<u8>, v: int)
    requires
        b.len() == 27,
        b.subrange(0, 4) == flhd(),
        b.subrange(14, 18) == fldt(),
        b[22] == EV_TEMPO,
        spec_le32(b[23], b[24], b[25], b[26]) == v,
        1000 <= v <= 999000,
    ensures
        spec_parse(b) is Ok,
        spec_parse(b)->Ok_0.bpm_millis == Some(v as u32),
{
    let st0 = init_state();
    lemma_run_dword(b, 22, st0);
    let st1 = apply_dword(st0, b[22], v);
    assert(st1.modern == Some(v as u32));
    lemma_run_end(b, 27, st1);
    assert(run_from(b, 22, st0) == st1);
}

/// A concrete corollary of `lemma_tempo_resolution`: when both a legacy
/// and a modern tempo stand in the stream, in range, the modern one wins.
pub proof fn lemma_modern_overrides_legacy(b: Seq<u8>, lv: int, mv: int)
    requires
        b.len() == 30,
        b.subrange(0, 4) == flhd(),
        b.subrange(14, 18) == fldt(),
        b[22] == EV_TEMPO_LEGACY,
        spec_le16(b[23], b[24]) == lv,
        1 <= lv <= 999,
        b[25] == EV_TEMPO,
        spec_le32(b[26], b[27], b[28], b[29]) == mv,
        1000 <= mv <= 999000,
    ensures
        spec_parse(b) is Ok,
        spec_parse(b)->Ok_0.bpm_millis == Some(mv as u32),
{
    let st0 = init_state();
    lemma_run_word(b, 22, st0);
    let st1 = apply_word(st0, b[22], lv);
    assert(st1.legacy == Some((lv * 1000) as u32));
    assert(st1.modern is None);
    lemma_run_dword(b, 25, st1);
    let st2 = apply_dword(st1, b[25], mv);
    assert(st2.modern == Some(mv as u32));
    lemma_run_end(b, 30, st2);
    assert(run_from(b, 22, st0) == st2);
}


/// A buffer that does not open with the header magic is rejected as
/// `InvalidMagic`, whatever else it holds.
pub proof fn lemma_wrong_magic_rejected(b: Seq<u8>)
    requires
        b.len() < 4 || b.subrange(0, 4) != flhd(),
    ensures
        spec_parse(b) == Result::<FlpMetadataV, ParseError>::Err(ParseError::InvalidMagic),
{
}

// ---- the tempo a stream resolves to -------------------------------------

/// The two tempo registers after walking the events from `pos`: the last
/// in-range legacy (event 66) and modern (event 156) values, each kept in
/// milli-BPM; the walk stops where the event walk itself stops.
pub open spec fn tempo_after(
    b: Seq<u8>,
    pos: int,
    legacy: Option<u32>,
    modern: Option<u32>,
) -> (Option<u32>, Option<u32>)
    decreases b.len() - pos,
    via tempo_after_decreases
{
    if pos < 0 || pos >= b.len() {
        (legacy, modern)
    } else {
        let id = b[pos];
        if id < 64 {
            if pos + 2 > b.len() {
                (legacy, modern)
            } else {
                tempo_after(b, pos + 2, legacy, modern)
            }
        } else if id < 128 {
            if pos + 3 > b.len() {
                (legacy, modern)
            } else {
                let v = spec_le16(b[pos + 1], b[pos + 2]);
                let l2 = if id == EV_TEMPO_LEGACY && 1 <= v && v <= 999 {
                    Some((v * 1000) as u32)
                } else {
                    legacy
                };
                tempo_after(b, pos + 3, l2, modern)
            }
        } else if id < 192 {
            if pos + 5 > b.len() {
                (legacy, modern)
            } else {
                let v = spec_le32(b[pos + 1], b[pos + 2], b[pos + 3], b[pos + 4]);
                let m2 = if id == EV_TEMPO && 1000 <= v && v <= 999000 {
                    Some(v as u32)
                } else {
                    modern
                };
                tempo_after(b, pos + 5, legacy, m2)
            }
        } else {
            let vi = spec_varint(b, pos + 1, 0, 0);
            if vi is None {
                (legacy, modern)
            } else {
                let len = ((vi->0).0) as int;
                let next = (vi->0).1;
                if b.len() - next < len {
                    (legacy, modern)
                } else {
                    tempo_after(b, next + len, legacy, modern)
                }
            }
        }
    }
}

#[via_fn]
proof fn tempo_after_decreases(b: Seq<u8>, pos: int, legacy: Option<u32>, modern: Option<u32>) {
    if 0 <= pos < b.len() && b[pos] >= 192 {
        if spec_varint(b, pos + 1, 0, 0) is Some {
            lemma_varint_next(b, pos + 1, 0, 0);
        }
    }
}

/// The event walk tracks the tempo walker exactly: its two tempo
/// registers end where `tempo_after` says, whatever else the stream does.
pub proof fn lemma_run_tempo(b: Seq<u8>, pos: int, st: PState)
    ensures
        run_from(b, pos, st).legacy == tempo_after(b, pos, st.legacy, st.modern).0,
        run_from(b, pos, st).modern == tempo_after(b, pos, st.legacy, st.modern).1,
    decreases b.len() - pos,
{
    reveal(run_from);
    if pos < 0 || pos >= b.len() {
    } else {
        let id = b[pos];
        if id < 64 {
            if pos + 2 <= b.len() {
                lemma_run_tempo(b, pos + 2, apply_byte(st, id, b[pos + 1]));
            }
        } else if id < 128 {
            if pos + 3 <= b.len() {
                let st2 = apply_word(st, id, spec_le16(b[pos + 1], b[pos + 2]));
                assert(st2.modern == st.modern);
                lemma_run_tempo(b, pos + 3, st2);
            }
        } else if id < 192 {
            if pos + 5 <= b.len() {
                let st2 = apply_dword(st, id,
                    spec_le32(b[pos + 1], b[pos + 2], b[pos + 3], b[pos + 4]));
                assert(st2.legacy == st.legacy);
                lemma_run_tempo(b, pos + 5, st2);
            }
        } else {
            let vi = spec_varint(b, pos + 1, 0, 0);
            if vi is Some {
                let len = ((vi->0).0) as int;
                let next = (vi->0).1;
                if b.len() - next >= len {
                    lemma_varint_next(b, pos + 1, 0, 0);
                    lemma_run_tempo(b, next + len,
                        apply_text(st, id, spec_decode(b.subrange(next, next + len))));
                }
            }
        }
    }
}

/// How a parsed buffer's tempo resolves, over the whole stream: the last
/// in-range modern event wins when one was walked, whatever legacy events
/// stand anywhere; else the last in-range legacy event; else nothing.
pub proof fn lemma_tempo_resolution(b: Seq<u8>)
    requires
        b.len() >= 18,
        b.subrange(0, 4) == flhd(),
        b.subrange(14, 18) == fldt(),
    ensures
        spec_parse(b) is Ok,
        spec_parse(b)->Ok_0.bpm_millis == ({
            let (l, m) = tempo_after(b, 22, None, None);
            if m is Some { m } else { l }
        }),
{
    lemma_run_tempo(b, 22, init_state());
}

// ---- tolerance of one-byte truncation -----------------------------------

/// Where the event starting at `pos` ends, or `-1` if it runs past the end
/// of the buffer.
pub open spec fn event_end(b: Seq<u8>, pos: int) -> int {
    if pos < 0 || pos >= b.len() {
        -1
    } else {
        let id = b[pos];
        if id < 64 {
            if pos + 2 <= b.len() { pos + 2 } else { -1 }
        } else if id < 128 {
            if pos + 3 <= b.len() { pos + 3 } else { -1 }
        } else if id < 192 {
            if pos + 5 <= b.len() { pos + 5 } else { -1 }
        } else {
            let vi = spec_varint(b, pos + 1, 0, 0);
            if vi is None {
                -1
            } else {
                let len = ((vi->0).0) as int;
                let next = (vi->0).1;
                if b.len() - next >= len { next + len } else { -1 }
            }
        }
    }
}

pub proof fn lemma_event_end_bounds(b: Seq<u8>, pos: int)
    requires
        0 <= pos < b.len(),
        event_end(b, pos) != -1,
    ensures
        pos + 2 <= event_end(b, pos) <= b.len(),
{
    if b[pos] >= 192 {
        lemma_varint_next(b, pos + 1, 0, 0);
    }
}

/// The bytes from `pos` on parse as a sequence of complete events.
pub open spec fn wf_events(b: Seq<u8>, pos: int) -> bool
    decreases b.len() - pos,
    via wf_events_decreases
{
    if pos == b.len() {
        true
    } else if pos < 0 || pos > b.len() {
        false
    } else {
        let e = event_end(b, pos);
        if e == -1 {
            false
        } else {
            wf_events(b, e)
        }
    }
}

#[via_fn]
proof fn wf_events_decreases(b: Seq<u8>, pos: int) {
    if 0 <= pos < b.len() && event_end(b, pos) != -1 {
        lemma_event_end_bounds(b, pos);
    }
}

/// A varint read does not change when the buffer is cut anywhere past it.
pub proof fn lemma_varint_prefix(b: Seq<u8>, m: int, i: int, shift: u32, acc: u64)
    requires
        0 <= i,
        spec_varint(b, i, shift, acc) is Some,
        (spec_varint(b, i, shift, acc)->0).1 <= m <= b.len(),
    ensures
        spec_varint(b.take(m), i, shift, acc) == spec_varint(b, i, shift, acc),
    decreases b.len() - i,
{
    lemma_varint_next(b, i, shift, acc);
    let t = b.take(m);
    assert(t[i] == b[i]);
    let bb = b[i];
    let acc2 = acc | (((bb & 0x7f) as u64) << shift);
    if bb & 0x80 == 0 {
    } else {
        lemma_varint_prefix(b, m, i + 1, (shift + 7) as u32, acc2);
    }
}

/// Cutting the final byte of a varint leaves an unterminated read.
pub proof fn lemma_varint_cut(b: Seq<u8>, i: int, shift: u32, acc: u64)
    requires
        0 <= i,
        spec_varint(b, i, shift, acc) is Some,
    ensures
        spec_varint(b.take((spec_varint(b, i, shift, acc)->0).1 - 1), i, shift, acc) is None,
    decreases b.len() - i,
{
    lemma_varint_next(b, i, shift, acc);
    let next = (spec_varint(b, i, shift, acc)->0).1;
    let t = b.take(next - 1);
    let bb = b[i];
    let acc2 = acc | (((bb & 0x7f) as u64) << shift);
    if bb & 0x80 == 0 {
        assert(next == i + 1);
        assert(i >= t.len());
    } else {
        lemma_varint_next(b, i + 1, (shift + 7) as u32, acc2);
        lemma_varint_cut(b, i + 1, (shift + 7) as u32, acc2);
        assert(i < next - 1);
        assert(t[i] == b[i]);
    }
}

/// The message marks a truncation.
pub open spec fn msg_truncated(w: Seq<char>) -> bool {
    w.len() >= 9 && w.take(9) == "Truncated"@
}

/// Some warning marks a truncation.
pub open spec fn has_trunc(ws: Seq<Seq<char>>) -> bool {
    exists|i: int| 0 <= i < ws.len() && msg_truncated(ws[i])
}

proof fn lemma_trunc_msg_marked(prefix: Seq<char>, id: u8)
    requires
        prefix.len() >= 9,
        prefix.take(9) == "Truncated"@,
    ensures
        msg_truncated(trunc_msg(prefix, id)),
{
    assert(trunc_msg(prefix, id).take(9) =~= prefix.take(9));
}

proof fn lemma_trunc_prefixes()
    ensures
        "Truncated at BYTE event "@.take(9) == "Truncated"@,
        "Truncated at WORD event "@.take(9) == "Truncated"@,
        "Truncated at DWORD event "@.take(9) == "Truncated"@,
        "Truncated varint at TEXT event "@.take(9) == "Truncated"@,
        "Truncated payload at TEXT event "@.take(9) == "Truncated"@,
        "Truncated at BYTE event "@.len() >= 9,
        "Truncated at WORD event "@.len() >= 9,
        "Truncated at DWORD event "@.len() >= 9,
        "Truncated varint at TEXT event "@.len() >= 9,
        "Truncated payload at TEXT event "@.len() >= 9,
{
    reveal_strlit("Truncated");
    reveal_strlit("Truncated at BYTE event ");
    reveal_strlit("Truncated at WORD event ");
    reveal_strlit("Truncated at DWORD event ");
    reveal_strlit("Truncated varint at TEXT event ");
    reveal_strlit("Truncated payload at TEXT event ");
    assert("Truncated at BYTE event "@.take(9) =~= "Truncated"@);
    assert("Truncated at WORD event "@.take(9) =~= "Truncated"@);
    assert("Truncated at DWORD event "@.take(9) =~= "Truncated"@);
    assert("Truncated varint at TEXT event "@.take(9) =~= "Truncated"@);
    assert("Truncated payload at TEXT event "@.take(9) =~= "Truncated"@);
}

proof fn lemma_warn_has_trunc(st: PState, msg: Seq<char>)
    requires
        msg_truncated(msg),
    ensures
        has_trunc(warn(st, msg).warnings),
{
    assert(warn(st, msg).warnings[st.warnings.len() as int] == msg);
}

/// Walking a well-formed event stream whose final byte was cut always
/// records a truncation warning.
pub proof fn lemma_truncated_run(b: Seq<u8>, pos: int, st: PState)
    requires
        0 <= pos < b.len(),
        wf_events(b, pos),
    ensures
        has_trunc(run_from(b.take(b.len() - 1), pos, st).warnings),
    decreases b.len() - pos,
{
    lemma_trunc_prefixes();
    let t = b.take(b.len() - 1);
    let e = event_end(b, pos);
    lemma_event_end_bounds(b, pos);
    assert(pos < t.len());
    assert(t[pos] == b[pos]);
    let id = b[pos];
    if e == b.len() {
        // this is the last event and the cut hits it
        if id < 64 {
            lemma_run_byte_trunc(t, pos, st);
            lemma_trunc_msg_marked("Truncated at BYTE event "@, id);
            lemma_warn_has_trunc(st, trunc_msg("Truncated at BYTE event "@, id));
        } else if id < 128 {
            lemma_run_word_trunc(t, pos, st);
            lemma_trunc_msg_marked("Truncated at WORD event "@, id);
            lemma_warn_has_trunc(st, trunc_msg("Truncated at WORD event "@, id));
        } else if id < 192 {
            lemma_run_dword_trunc(t, pos, st);
            lemma_trunc_msg_marked("Truncated at DWORD event "@, id);
            lemma_warn_has_trunc(st, trunc_msg("Truncated at DWORD event "@, id));
        } else {
            let vi = spec_varint(b, pos + 1, 0, 0);
            let vlen = ((vi->0).0) as int;
            let next = (vi->0).1;
            lemma_varint_next(b, pos + 1, 0, 0);
            if vlen == 0 {
                // the cut byte terminated the length varint
                assert(next == b.len());
                lemma_varint_cut(b, pos + 1, 0, 0);
                assert(t =~= b.take(next - 1));
                lemma_run_text_varint_trunc(t, pos, st);
                lemma_trunc_msg_marked("Truncated varint at TEXT event "@, id);
                lemma_warn_has_trunc(st, trunc_msg("Truncated varint at TEXT event "@, id));
            } else {
                // the cut byte was payload
                assert(next <= b.len() - 1);
                lemma_varint_prefix(b, b.len() - 1, pos + 1, 0, 0);
                assert(t.len() - next < vlen);
                lemma_run_text_payload_trunc(t, pos, st);
                lemma_trunc_msg_marked("Truncated payload at TEXT event "@, id);
                lemma_warn_has_trunc(st, trunc_msg("Truncated payload at TEXT event "@, id));
            }
        }
    } else {
        // the event fits into the cut buffer unchanged; step over it
        assert(e <= t.len());
        if id < 64 {
            assert(t[pos + 1] == b[pos + 1]);
            lemma_run_byte(t, pos, st);
            lemma_truncated_run(b, e, apply_byte(st, id, t[pos + 1]));
        } else if id < 128 {
            assert(t[pos + 1] == b[pos + 1] && t[pos + 2] == b[pos + 2]);
            lemma_run_word(t, pos, st);
            lemma_truncated_run(b, e, apply_word(st, id, spec_le16(t[pos + 1], t[pos + 2])));
        } else if id < 192 {
            lemma_run_dword(t, pos, st);
            lemma_truncated_run(b, e,
                apply_dword(st, id, spec_le32(t[pos + 1], t[pos + 2], t[pos + 3], t[pos + 4])));
        } else {
            let vi = spec_varint(b, pos + 1, 0, 0);
            let vlen = ((vi->0).0) as int;
            let next = (vi->0).1;
            lemma_varint_next(b, pos + 1, 0, 0);
            lemma_varint_prefix(b, b.len() - 1, pos + 1, 0, 0);
            assert(t.subrange(next, next + vlen) =~= b.subrange(next, next + vlen));
            lemma_run_text(t, pos, st);
            lemma_truncated_run(b, e,
                apply_text(st, id, spec_decode(t.subrange(next, next + vlen))));
        }
    }
}

/// Cutting one byte off a valid project file is never fatal: both buffers
/// parse, and the shorter one's warnings record the truncation.
pub proof fn lemma_truncation_tolerated(b: Seq<u8>)
    requires
        b.len() >= 23,
        b.subrange(0, 4) == flhd(),
        b.subrange(14, 18) == fldt(),
        wf_events(b, 22),
    ensures
        spec_parse(b) is Ok,
        spec_parse(b.take(b.len() - 1)) is Ok,
        has_trunc(spec_parse(b.take(b.len() - 1))->Ok_0.warnings),
{
    let t = b.take(b.len() - 1);
    lemma_event_end_bounds(b, 22);
    assert(b.len() >= 24);
    assert(t.subrange(0, 4) =~= b.subrange(0, 4));
    assert(t.subrange(14, 18) =~= b.subrange(14, 18));
    lemma_truncated_run(b, 22, init_state());
    let stt = run_from(t, 22, init_state());
    let cc = (spec_le16(t[10], t[11])) as u16;
    let fin = finish_state(stt, cc);
    assert(has_trunc(fin.warnings)) by {
        let i = choose|i: int| 0 <= i < stt.warnings.len() && msg_truncated(stt.warnings[i]);
        assert(flush(stt).warnings == stt.warnings);
        assert(fin.warnings[i] == stt.warnings[i]);
    }
}

} // verus!
