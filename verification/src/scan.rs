//! The scan pipeline over an already-discovered list of files.
//!
//! All decisions live here: the `(path, size, mtime)` cache check, content
//! hashing and dedup, parsing and persisting, and the progress events.  A
//! shell that walks the tree, reads files and forwards events runs the
//! loop file by file; everything it must decide it asks this module.

use vstd::prelude::*;
use crate::store::{StoreModel, fresh_in, has_file_hash, error_meta_v, pi_upserted,
    files_upserted, path_row_is};
use crate::parser::{parse_flp, spec_parse, FlpMetadata, ParseError};
use crate::outside::{xxh3_of, content_digest};
use crate::text::{spec_digit, string_of};
use vstd::string::StringExecFns;

verus! {

/// The running state of one scan, as the UI sees it.
pub struct ScanStatus {
    pub total: usize,
    pub done: usize,
    pub running: bool,
}

impl ScanStatus {
    pub fn new() -> (r: ScanStatus)
        ensures
            r.total == 0,
            r.done == 0,
            r.running == false,
    {
        ScanStatus { total: 0, done: 0, running: false }
    }
}

/// One progress event of a scan.
pub enum ScanEvent {
    Started { total: usize },
    Progress { done: usize, total: usize, path: String, warnings: Vec<String> },
    Complete { total: usize },
    Cancelled { done: usize },
}

/// What the shell observed about one discovered file.
pub struct FileObs {
    pub path: String,
    /// `(size, mtime)`, or `None` when even the metadata could not be read.
    pub stat: Option<(i64, i64)>,
    /// The file's bytes, or the error text of the failed read.  Only
    /// consulted when the cache misses.
    pub data: Result<Vec<u8>, String>,
}

/// The lowercase hex digit for `d`.
pub open spec fn spec_hex_digit(d: int) -> char {
    if d < 10 {
        spec_digit(d)
    } else if d == 10 { 'a' } else if d == 11 { 'b' } else if d == 12 { 'c' }
    else if d == 13 { 'd' } else if d == 14 { 'e' } else { 'f' }
}

/// The 16 hex digits of `v`, most significant nibble first.
pub open spec fn hex16_from(v: u64, i: int) -> Seq<char>
    decreases 16 - i,
{
    if i < 0 || i >= 16 {
        Seq::empty()
    } else {
        seq![spec_hex_digit(((v >> (((15 - i) * 4) as u64)) & 0xf) as int)]
            + hex16_from(v, i + 1)
    }
}

/// A 64-bit value as 16 lowercase hex digits.
pub open spec fn spec_hex16(v: u64) -> Seq<char> {
    hex16_from(v, 0)
}

/// The stored content key of a byte string.
pub open spec fn content_key(bytes: Seq<u8>) -> Seq<char> {
    spec_hex16(xxh3_of(bytes))
}

fn hex_digit_char(d: u64) -> (c: char)
    requires
        d < 16,
    ensures
        c == spec_hex_digit(d as int),
{
    match d {
        0 => '0', 1 => '1', 2 => '2', 3 => '3', 4 => '4', 5 => '5', 6 => '6',
        7 => '7', 8 => '8', 9 => '9', 10 => 'a', 11 => 'b', 12 => 'c',
        13 => 'd', 14 => 'e', _ => 'f',
    }
}

/// Renders a digest as its 16-digit key.
pub fn hex16(v: u64) -> (r: String)
    ensures
        r@ == spec_hex16(v),
{
    let mut out: Vec<char> = Vec::new();
    let mut i: usize = 0;
    while i < 16
        invariant
            i <= 16,
            out@.len() == i,
            spec_hex16(v) == out@ + hex16_from(v, i as int),
        decreases 16 - i,
    {
        let sh: u64 = ((15 - i) as u64) * 4;
        let d: u64 = (v >> sh) & 0xf;
        assert((v >> sh) & 0xf < 16) by (bit_vector);
        out.push(hex_digit_char(d));
        assert(out@ + hex16_from(v, i + 1) =~= spec_hex16(v));
        i = i + 1;
    }
    assert(hex16_from(v, 16) =~= Seq::<char>::empty());
    assert(out@ =~= spec_hex16(v));
    string_of(&out)
}

/// The metadata persisted when parsing fails outright: nothing extracted,
/// one warning.
pub open spec fn parse_error_warning(e: ParseError) -> Seq<char> {
    "Parse error: "@ + (if e == ParseError::InvalidMagic {
        "InvalidMagic"@
    } else {
        "TruncatedHeader"@
    })
}

/// What one scan step persists for a file's bytes: the parse result, or
/// the empty record with the parse error as its only warning.
pub open spec fn step_meta(bytes: Seq<u8>) -> crate::parser::FlpMetadataV {
    match spec_parse(bytes) {
        Ok(m) => m,
        Err(e) => error_meta_v(parse_error_warning(e)),
    }
}

/// The warnings one scan step reports for a file's bytes.
pub open spec fn step_warnings(bytes: Seq<u8>) -> Seq<Seq<char>> {
    match spec_parse(bytes) {
        Ok(m) => m.warnings,
        Err(e) => seq![parse_error_warning(e)],
    }
}

fn clone_strings(v: &Vec<String>) -> (r: Vec<String>)
    ensures
        r.deep_view() == v.deep_view(),
{
    let n = v.len();
    let mut r: Vec<String> = Vec::new();
    let mut i: usize = 0;
    while i < n
        invariant
            i <= n,
            n == v@.len(),
            r@.len() == i,
            forall|k: int| 0 <= k < i ==> (#[trigger] r@[k])@ == (v@[k])@,
        decreases n - i,
    {
        r.push(v[i].clone());
        i = i + 1;
    }
    proof {
        assert forall|k: int| 0 <= k < n implies
            #[trigger] r.deep_view()[k] == v.deep_view()[k] by {
            assert((r@[k])@ == (v@[k])@);
        }
        assert(r.deep_view() =~= v.deep_view());
    }
    r
}

/// How one scan step relates the store before and after one observation:
/// a stat failure or a fresh cache entry leaves the store alone, a read
/// failure too; otherwise a known content key only repoints the path
/// index, and a new one parses and persists.  `warnings` are the ones the
/// file's progress event carries.
pub open spec fn scan_step_rel(
    pre: StoreModel,
    post: StoreModel,
    obs: FileObs,
    parsed_at: int,
    warnings: Seq<Seq<char>>,
) -> bool {
    &&& post.settings == pre.settings
    &&& post.song_groups == pre.song_groups
    &&& post.group_files == pre.group_files
    &&& (obs.stat is None ==> post == pre
            && warnings == seq!["Failed to read file metadata"@])
    &&& (obs.stat matches Some(st) ==> ({
            if fresh_in(pre.path_index@, obs.path@, st.0 as int, st.1 as int) {
                post == pre && warnings == Seq::<Seq<char>>::empty()
            } else {
                match obs.data {
                    Err(ref e) => post == pre
                        && warnings == seq!["Failed to read file: "@ + e@],
                    Ok(ref bytes) => {
                        let key = content_key(bytes@);
                        if has_file_hash(pre.files@, key) {
                            post.files == pre.files
                            && pi_upserted(pre.path_index@, post.path_index@,
                                obs.path@, key, st.0 as int, st.1 as int)
                            && warnings == Seq::<Seq<char>>::empty()
                        } else {
                            files_upserted(pre.files@, post.files@,
                                key, obs.path@, st.0 as int, st.1 as int,
                                step_meta(bytes@), parsed_at)
                            && pi_upserted(pre.path_index@, post.path_index@,
                                obs.path@, key, st.0 as int, st.1 as int)
                            && warnings == step_warnings(bytes@)
                        }
                    },
                }
            }
        }))
}

/// Processes one discovered file against the store: skip it when its
/// `(path, size, mtime)` is fresh; otherwise hash it, reuse a known
/// content by pointing the path index at it, or parse and persist it.
/// Returns the warnings for this file's progress event.
pub fn scan_step(model: &mut StoreModel, obs: &FileObs, parsed_at: i64) -> (warnings: Vec<String>)
    requires
        old(model).wf(),
    ensures
        final(model).wf(),
        scan_step_rel(*old(model), *final(model), *obs, parsed_at as int,
            warnings.deep_view()),
{
    let (size, mtime) = match obs.stat {
        None => {
            let mut warnings: Vec<String> = Vec::new();
            warnings.push("Failed to read file metadata".to_owned());
            proof {
                assert(warnings.deep_view() =~= seq!["Failed to read file metadata"@]);
            }
            return warnings;
        },
        Some(st) => st,
    };
    if model.is_cached(obs.path.as_str(), size, mtime) {
        let warnings: Vec<String> = Vec::new();
        proof {
            assert(warnings.deep_view() =~= Seq::<Seq<char>>::empty());
        }
        return warnings;
    }
    let bytes = match &obs.data {
        Err(e) => {
            let mut w = "Failed to read file: ".to_owned();
            w.append(e.as_str());
            let mut warnings: Vec<String> = Vec::new();
            let ghost wv = w@;
            warnings.push(w);
            proof {
                assert(warnings.deep_view() =~= seq![wv]);
            }
            return warnings;
        },
        Ok(bytes) => bytes,
    };
    let digest = content_digest(bytes.as_slice());
    let hash = hex16(digest);
    if model.hash_in_cache(hash.as_str()) {
        model.update_path_index(obs.path.as_str(), hash.as_str(), size, mtime);
        let warnings: Vec<String> = Vec::new();
        proof {
            assert(warnings.deep_view() =~= Seq::<Seq<char>>::empty());
        }
        return warnings;
    }
    match parse_flp(bytes.as_slice()) {
        Ok(meta) => {
            let warnings = clone_strings(&meta.warnings);
            model.upsert_file(hash.as_str(), obs.path.as_str(), size, mtime, &meta, parsed_at);
            proof {
                assert(warnings.deep_view() =~= step_warnings(bytes@));
            }
            warnings
        },
        Err(e) => {
            let mut msg = "Parse error: ".to_owned();
            let dbg = e.debug_text();
            msg.append(dbg.as_str());
            let mut meta_warnings: Vec<String> = Vec::new();
            meta_warnings.push(msg.clone());
            let meta = FlpMetadata {
                bpm_millis: None,
                time_sig_num: None,
                time_sig_den: None,
                channel_count: 0,
                pattern_count: 0,
                mixer_track_count: 0,
                generators: Vec::new(),
                effects: Vec::new(),
                fl_version: None,
                warnings: meta_warnings,
            };
            proof {
                assert(meta@.generators =~= error_meta_v(parse_error_warning(
                    spec_parse(bytes@)->Err_0)).generators);
                assert(meta@.effects =~= error_meta_v(parse_error_warning(
                    spec_parse(bytes@)->Err_0)).effects);
                assert(meta@.warnings =~= error_meta_v(parse_error_warning(
                    spec_parse(bytes@)->Err_0)).warnings);
            }
            model.upsert_file(hash.as_str(), obs.path.as_str(), size, mtime, &meta, parsed_at);
            let mut warnings: Vec<String> = Vec::new();
            let ghost mv = msg@;
            warnings.push(msg);
            proof {
                assert(warnings.deep_view() =~= seq![mv]);
                assert(warnings.deep_view() =~= step_warnings(bytes@));
            }
            warnings
        },
    }
}

/// Every observation hits the `(path, size, mtime)` cache of `m`.
pub open spec fn all_fresh(m: StoreModel, observations: Seq<FileObs>) -> bool {
    forall|k: int| 0 <= k < observations.len() ==> ({
        let o = #[trigger] observations[k];
        o.stat matches Some(st) && fresh_in(m.path_index@, o.path@, st.0 as int, st.1 as int)
    })
}

/// The stores a scan ran through: entry `t` is the store before file `t`,
/// and each processed file's step relates consecutive entries exactly as
/// `scan_step` pins it, with the warnings of that file's progress event.
pub open spec fn scan_trace(
    ms: Seq<StoreModel>,
    obs: Seq<FileObs>,
    k: int,
    parsed_at: int,
    events: Seq<ScanEvent>,
) -> bool {
    &&& ms.len() == k + 1
    &&& (forall|t: int| 0 <= t < k ==>
            ((#[trigger] events[t + 1]) matches ScanEvent::Progress { warnings, .. }
                && scan_step_rel(ms[t], ms[t + 1], obs[t], parsed_at,
                    warnings.deep_view())))
}

/// Runs a whole scan over the discovered files, emitting the event stream:
/// a start event, one progress event per processed file, and a completion
/// event — or a cancellation event in place of the tail when the flag
/// falls at file `c`.  The store evolves file by file exactly as
/// `scan_step` says, along the trace the last clause exhibits.
pub fn run_scan(
    model: &mut StoreModel,
    observations: &Vec<FileObs>,
    cancel_at: Option<usize>,
    parsed_at: i64,
) -> (events: Vec<ScanEvent>)
    requires
        old(model).wf(),
    ensures
        final(model).wf(),
        final(model).settings == old(model).settings,
        final(model).song_groups == old(model).song_groups,
        final(model).group_files == old(model).group_files,
        events@.len() >= 1,
        events@[0] matches ScanEvent::Started { total } && total == observations@.len(),
        ({
            let n = observations@.len() as int;
            match cancel_at {
                Some(c) if c < n => {
                    events@.len() == c + 2
                    && (events@[c + 1] matches ScanEvent::Cancelled { done } && done == c)
                    && (forall|k: int| 0 <= k < c ==>
                        (#[trigger] events@[k + 1] matches ScanEvent::Progress {
                            done, total, path, .. } && done == k + 1 && total == n
                            && path@ == observations@[k].path@))
                },
                _ => {
                    events@.len() == n + 2
                    && (events@[n + 1] matches ScanEvent::Complete { total } && total == n)
                    && (forall|k: int| 0 <= k < n ==>
                        (#[trigger] events@[k + 1] matches ScanEvent::Progress {
                            done, total, path, .. } && done == k + 1 && total == n
                            && path@ == observations@[k].path@))
                },
            }
        }),
        // scanning an unchanged tree writes nothing: every fresh file is
        // skipped and reported clean
        all_fresh(*old(model), observations@) && cancel_at is None ==>
            *final(model) == *old(model)
            && (forall|k: int| 0 <= k < observations@.len() ==>
                (#[trigger] events@[k + 1] matches ScanEvent::Progress { warnings, .. }
                    && warnings.deep_view() =~= Seq::<Seq<char>>::empty())),
        // the store's whole evolution, one scan_step per processed file
        cancel_at is None ==> (exists|ms: Seq<StoreModel>|
            #[trigger] scan_trace(ms, observations@, observations@.len() as int,
                parsed_at as int, events@)
            && ms[0] == *old(model)
            && ms[observations@.len() as int] == *final(model)),
        cancel_at matches Some(c) ==> ((c as int) >= observations@.len()
            ==> (exists|ms: Seq<StoreModel>|
                #[trigger] scan_trace(ms, observations@, observations@.len() as int,
                    parsed_at as int, events@)
                && ms[0] == *old(model)
                && ms[observations@.len() as int] == *final(model))),
        cancel_at matches Some(c) ==> ((c as int) < observations@.len()
            ==> (exists|ms: Seq<StoreModel>|
                #[trigger] scan_trace(ms, observations@, c as int,
                    parsed_at as int, events@)
                && ms[0] == *old(model) && ms[c as int] == *final(model))),
{
    let total = observations.len();
    let mut events: Vec<ScanEvent> = Vec::new();
    events.push(ScanEvent::Started { total });
    let mut done: usize = 0;
    let ghost allf = all_fresh(*old(model), observations@);
    let ghost mut ms: Seq<StoreModel> = seq![*old(model)];
    while done < total
        invariant
            done <= total,
            total == observations@.len(),
            old(model).wf(),
            model.wf(),
            model.settings == old(model).settings,
            model.song_groups == old(model).song_groups,
            model.group_files == old(model).group_files,
            allf == all_fresh(*old(model), observations@),
            events@.len() == done + 1,
            events@[0] matches ScanEvent::Started { total: t } && t == observations@.len(),
            forall|k: int| 0 <= k < done ==>
                (#[trigger] events@[k + 1] matches ScanEvent::Progress {
                    done: d, total: t, path: p, .. }
                    && d == k + 1 && t == observations@.len()
                    && p@ == observations@[k].path@),
            cancel_at matches Some(c) ==> done <= c,
            ms.len() == done + 1,
            ms[0] == *old(model),
            ms[done as int] == *model,
            forall|t: int| 0 <= t < done ==>
                ((#[trigger] events@[t + 1]) matches ScanEvent::Progress { warnings, .. }
                    && scan_step_rel(ms[t], ms[t + 1], observations@[t],
                        parsed_at as int, warnings.deep_view())),
            allf && cancel_at is None ==> *model == *old(model),
            allf && cancel_at is None ==>
                (forall|k: int| 0 <= k < done ==>
                    (#[trigger] events@[k + 1] matches ScanEvent::Progress { warnings: w, .. }
                        && w.deep_view() =~= Seq::<Seq<char>>::empty())),
        decreases total - done,
    {
        match cancel_at {
            Some(c) => {
                if done == c {
                    let ghost ev_before = events@;
                    events.push(ScanEvent::Cancelled { done });
                    proof {
                        assert(events@[done + 1] matches ScanEvent::Cancelled { done: d }
                            && d == done);
                        assert forall|k: int| 0 <= k < done implies
                            (#[trigger] events@[k + 1] matches ScanEvent::Progress {
                                done: d, total: t, path: p, .. }
                                && d == k + 1 && t == observations@.len()
                                && p@ == observations@[k].path@) by {
                        }
                        assert forall|t: int| 0 <= t < done implies
                            ((#[trigger] events@[t + 1]) matches ScanEvent::Progress {
                                warnings: w, .. }
                                && scan_step_rel(ms[t], ms[t + 1], observations@[t],
                                    parsed_at as int, w.deep_view())) by {
                            assert(events@[t + 1] == ev_before[t + 1]);
                        }
                        assert(scan_trace(ms, observations@, done as int,
                            parsed_at as int, events@));
                        assert(exists|msw: Seq<StoreModel>|
                            #[trigger] scan_trace(msw, observations@, done as int,
                                parsed_at as int, events@)
                            && msw[0] == *old(model) && msw[done as int] == *model);
                    }
                    return events;
                }
            },
            None => {},
        }
        let obs = &observations[done];
        let ghost pre_step = *model;
        let warnings = scan_step(model, obs, parsed_at);
        let ghost wv = warnings.deep_view();
        proof {
            if allf && cancel_at is None {
                assert(observations@[done as int].stat matches Some(st)
                    && fresh_in(old(model).path_index@, observations@[done as int].path@,
                        st.0 as int, st.1 as int));
            }
        }
        done = done + 1;
        events.push(ScanEvent::Progress {
            done,
            total,
            path: obs.path.clone(),
            warnings,
        });
        proof {
            let ghost ms_before = ms;
            ms = ms.push(*model);
            assert(ms[done as int] == *model);
            assert forall|t: int| 0 <= t < done implies
                ((#[trigger] events@[t + 1]) matches ScanEvent::Progress { warnings: w, .. }
                    && scan_step_rel(ms[t], ms[t + 1], observations@[t],
                        parsed_at as int, w.deep_view())) by {
                if t < done - 1 {
                    assert(ms[t] == ms_before[t] && ms[t + 1] == ms_before[t + 1]);
                } else {
                    assert(events@[t + 1] matches ScanEvent::Progress { warnings: w, .. }
                        && w.deep_view() == wv);
                    assert(ms[t] == pre_step && ms[t + 1] == *model);
                    assert(scan_step_rel(pre_step, *model, observations@[t],
                        parsed_at as int, wv));
                }
            }
        }
    }
    match cancel_at {
        Some(c) => {
            if c < total {
                // unreachable: the loop would have stopped at c
                proof {
                    assert(false);
                }
            }
        },
        None => {},
    }
    let ghost ev_before = events@;
    events.push(ScanEvent::Complete { total });
    proof {
        assert forall|t: int| 0 <= t < total implies
            ((#[trigger] events@[t + 1]) matches ScanEvent::Progress { warnings: w, .. }
                && scan_step_rel(ms[t], ms[t + 1], observations@[t],
                    parsed_at as int, w.deep_view())) by {
            assert(events@[t + 1] == ev_before[t + 1]);
        }
        assert(scan_trace(ms, observations@, total as int, parsed_at as int, events@));
        assert(exists|msw: Seq<StoreModel>|
            #[trigger] scan_trace(msw, observations@, observations@.len() as int,
                parsed_at as int, events@)
            && msw[0] == *old(model) && msw[observations@.len() as int] == *model);
    }
    events
}


/// After step `t` of a completed trace, and at every later point, the
/// path index holds file `t`'s exact `(path, size, mtime)` triple —
/// provided the file was readable and no later observation shares its
/// path.
proof fn lemma_fresh_after(
    ms: Seq<StoreModel>,
    obs: Seq<FileObs>,
    parsed_at: int,
    events: Seq<ScanEvent>,
    t: int,
    u: int,
)
    requires
        scan_trace(ms, obs, obs.len() as int, parsed_at, events),
        forall|k: int| 0 <= k < obs.len() ==> (#[trigger] obs[k]).stat is Some,
        forall|k: int| 0 <= k < obs.len() ==> (#[trigger] obs[k]).data is Ok,
        forall|k1: int, k2: int| 0 <= k1 < k2 < obs.len() ==>
            (obs[k1]).path@ != (obs[k2]).path@,
        0 <= t < u <= obs.len(),
    ensures
        obs[t].stat matches Some(st) ==>
            fresh_in(ms[u].path_index@, obs[t].path@, st.0 as int, st.1 as int),
    decreases u,
{
    let st = obs[t].stat->0;
    let path = obs[t].path@;
    if u == t + 1 {
        assert(events[t + 1] matches ScanEvent::Progress { warnings, .. }
            && scan_step_rel(ms[t], ms[t + 1], obs[t], parsed_at, warnings.deep_view()));
        if fresh_in(ms[t].path_index@, path, st.0 as int, st.1 as int) {
            assert(ms[t + 1] == ms[t]);
        } else {
            // either branch upserts the path's exact triple
            let key = crate::scan::content_key((obs[t].data->Ok_0)@);
            assert(pi_upserted(ms[t].path_index@, ms[t + 1].path_index@, path,
                key, st.0 as int, st.1 as int));
            let k = crate::store::path_idx(ms[t].path_index@, path);
            crate::store::lemma_path_idx(ms[t].path_index@, path);
            if k >= 0 {
                assert(path_row_is(ms[t + 1].path_index@[k], path, key,
                    st.0 as int, st.1 as int));
                assert(ms[t + 1].path_index@[k].path@ == path
                    && ms[t + 1].path_index@[k].file_size == st.0 as int
                    && ms[t + 1].path_index@[k].mtime == st.1 as int);
            } else {
                let kk = ms[t].path_index@.len() as int;
                assert(path_row_is(ms[t + 1].path_index@[kk], path, key,
                    st.0 as int, st.1 as int));
                assert(ms[t + 1].path_index@[kk].path@ == path
                    && ms[t + 1].path_index@[kk].file_size == st.0 as int
                    && ms[t + 1].path_index@[kk].mtime == st.1 as int);
            }
            assert(fresh_in(ms[t + 1].path_index@, path, st.0 as int, st.1 as int));
        }
    } else {
        lemma_fresh_after(ms, obs, parsed_at, events, t, u - 1);
        assert(events[u - 1 + 1] matches ScanEvent::Progress { warnings, .. }
            && scan_step_rel(ms[u - 1], ms[u], obs[u - 1], parsed_at,
                warnings.deep_view()));
        let st2 = obs[u - 1].stat->0;
        let path2 = obs[u - 1].path@;
        assert(path2 != path);
        let pim = ms[u - 1].path_index@;
        let i = choose|i: int| 0 <= i < pim.len() && pim[i].path@ == path
            && pim[i].file_size == st.0 as int && pim[i].mtime == st.1 as int;
        if fresh_in(pim, path2, st2.0 as int, st2.1 as int) {
            assert(ms[u] == ms[u - 1]);
            assert(fresh_in(ms[u].path_index@, path, st.0 as int, st.1 as int));
        } else {
            let key2 = crate::scan::content_key((obs[u - 1].data->Ok_0)@);
            assert(pi_upserted(pim, ms[u].path_index@, path2, key2,
                st2.0 as int, st2.1 as int));
            let k2 = crate::store::path_idx(pim, path2);
            crate::store::lemma_path_idx(pim, path2);
            if k2 >= 0 {
                assert(pim[k2].path@ == path2);
                assert(i != k2);
                assert(ms[u].path_index@[i] == pim[i]);
            } else {
                assert(ms[u].path_index@[i] == pim[i]);
            }
            assert(fresh_in(ms[u].path_index@, path, st.0 as int, st.1 as int));
        }
    }
}

/// Scanner idempotence, in general: a completed scan over readable files
/// at pairwise-distinct paths leaves every observation fresh in the final
/// store — so a second identical scan, by `run_scan`'s own contract,
/// changes nothing and reports every file clean.
pub proof fn lemma_scan_idempotent(
    ms: Seq<StoreModel>,
    obs: Seq<FileObs>,
    parsed_at: int,
    events: Seq<ScanEvent>,
)
    requires
        scan_trace(ms, obs, obs.len() as int, parsed_at, events),
        forall|k: int| 0 <= k < obs.len() ==> (#[trigger] obs[k]).stat is Some,
        forall|k: int| 0 <= k < obs.len() ==> (#[trigger] obs[k]).data is Ok,
        forall|k1: int, k2: int| 0 <= k1 < k2 < obs.len() ==>
            (obs[k1]).path@ != (obs[k2]).path@,
    ensures
        all_fresh(ms[obs.len() as int], obs),
{
    assert forall|k: int| 0 <= k < obs.len() implies ({
        let o = #[trigger] obs[k];
        o.stat matches Some(st)
            && fresh_in(ms[obs.len() as int].path_index@, o.path@, st.0 as int, st.1 as int)
    }) by {
        lemma_fresh_after(ms, obs, parsed_at, events, k, obs.len() as int);
    }
}

/// Cache coherence: in a well-formed store every path-index entry points
/// at a stored file row — scanning preserves it because every operation
/// keeps the store well-formed.
pub proof fn lemma_cache_coherence(m: StoreModel)
    requires
        m.wf(),
    ensures
        forall|i: int| 0 <= i < m.path_index@.len() ==>
            #[trigger] has_file_hash(m.files@, m.path_index@[i].hash@),
{
}

} // verus!
