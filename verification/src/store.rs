//! An exact model of the persisted state: the five tables the engine keeps
//! (files, path index, settings, song groups, group files) with their key
//! and foreign-key invariants, and the operations the other components
//! issue against them.  A thin shell can mirror every write into an
//! embedded SQL store row for row; the logic and its guarantees live here.

use vstd::prelude::*;
use crate::parser::FlpMetadata;
use crate::text::{lex_lt, lex_le, str_lt, str_eq};
use crate::outside::{json_strings_of, json_encode_strings, new_group_id};

verus! {

/// One row of `files`: everything known about one unique content hash.
#[derive(Clone, Debug)]
pub struct FileRow {
    pub hash: String,
    pub path: String,
    pub file_size: i64,
    pub mtime: i64,
    pub bpm_millis: Option<u32>,
    pub time_sig_num: Option<u8>,
    pub time_sig_den: Option<u8>,
    pub channel_count: u16,
    pub pattern_count: u16,
    pub mixer_track_count: u16,
    pub plugins_json: String,
    pub warnings_json: String,
    pub fl_version: Option<String>,
    pub parsed_at: i64,
}

/// One row of `path_index`: the content last seen at a path.
#[derive(Clone, Debug)]
pub struct PathRow {
    pub path: String,
    pub hash: String,
    pub file_size: i64,
    pub mtime: i64,
}

/// One row of `settings`.
#[derive(Clone, Debug)]
pub struct SettingRow {
    pub key: String,
    pub value: String,
}

/// One row of `song_groups`.
#[derive(Clone, Debug)]
pub struct GroupRow {
    pub group_id: String,
    pub canonical_name: String,
    pub confirmed_at: i64,
    pub is_ignored: bool,
}

/// One row of `group_files`.
#[derive(Clone, Debug)]
pub struct GroupFileRow {
    pub hash: String,
    pub group_id: String,
    pub is_ignored: bool,
    pub manually_assigned: bool,
    pub assigned_at: i64,
}

/// The projection of a `files` row handed to listings and the matcher.
#[derive(Clone, Debug)]
pub struct FileRecord {
    pub hash: String,
    pub path: String,
    pub file_size: i64,
    pub mtime: i64,
    pub bpm_millis: Option<u32>,
    pub channel_count: Option<i64>,
    pub plugins_json: Option<String>,
    pub fl_version: Option<String>,
}

pub open spec fn has_file_hash(files: Seq<FileRow>, h: Seq<char>) -> bool {
    exists|j: int| 0 <= j < files.len() && files[j].hash@ == h
}

pub open spec fn fresh_in(pi: Seq<PathRow>, path: Seq<char>, size: int, mtime: int) -> bool {
    exists|i: int| 0 <= i < pi.len() && pi[i].path@ == path
        && pi[i].file_size == size && pi[i].mtime == mtime
}

/// Index of `path` in the path index, or `-1`.
pub open spec fn path_idx(pi: Seq<PathRow>, path: Seq<char>) -> int
    decreases pi.len(),
{
    if pi.len() == 0 {
        -1
    } else if pi[0].path@ == path {
        0
    } else {
        let r = path_idx(pi.skip(1), path);
        if r < 0 {
            -1
        } else {
            r + 1
        }
    }
}

/// Index of `hash` in the files table, or `-1`.
pub open spec fn file_idx(files: Seq<FileRow>, h: Seq<char>) -> int
    decreases files.len(),
{
    if files.len() == 0 {
        -1
    } else if files[0].hash@ == h {
        0
    } else {
        let r = file_idx(files.skip(1), h);
        if r < 0 {
            -1
        } else {
            r + 1
        }
    }
}

/// Index of `key` in the settings table, or `-1`.
pub open spec fn setting_idx(s: Seq<SettingRow>, key: Seq<char>) -> int
    decreases s.len(),
{
    if s.len() == 0 {
        -1
    } else if s[0].key@ == key {
        0
    } else {
        let r = setting_idx(s.skip(1), key);
        if r < 0 {
            -1
        } else {
            r + 1
        }
    }
}

pub open spec fn path_row_is(r: PathRow, path: Seq<char>, hash: Seq<char>, size: int, mtime: int) -> bool {
    r.path@ == path && r.hash@ == hash && r.file_size == size && r.mtime == mtime
}

/// Per generator: its plugin name, or the channel name when the plugin
/// is unknown.
pub open spec fn gen_plugin_names(gens: Seq<crate::parser::ChannelInfoV>) -> Seq<Seq<char>> {
    gens.map(|i: int, g: crate::parser::ChannelInfoV|
        if g.plugin_name is Some { g.plugin_name->0 } else { g.name })
}

/// The plugin list persisted for a parse result: per generator its plugin
/// name, or the channel name when the plugin is unknown, then the effects.
pub open spec fn plugins_of(m: crate::parser::FlpMetadataV) -> Seq<Seq<char>> {
    gen_plugin_names(m.generators) + m.effects
}

/// What the `files` row for an upsert holds.
pub open spec fn file_row_is(
    r: FileRow,
    hash: Seq<char>,
    path: Seq<char>,
    size: int,
    mtime: int,
    m: crate::parser::FlpMetadataV,
    parsed_at: int,
) -> bool {
    &&& r.hash@ == hash
    &&& r.path@ == path
    &&& r.file_size == size
    &&& r.mtime == mtime
    &&& r.bpm_millis == m.bpm_millis
    &&& r.time_sig_num == m.time_sig_num
    &&& r.time_sig_den == m.time_sig_den
    &&& r.channel_count == m.channel_count
    &&& r.pattern_count == m.pattern_count
    &&& r.mixer_track_count == m.mixer_track_count
    &&& r.plugins_json@ == json_strings_of(plugins_of(m))
    &&& r.warnings_json@ == json_strings_of(m.warnings)
    &&& r.fl_version.deep_view() == m.fl_version
    &&& r.parsed_at == parsed_at
}

/// The record that `list_all_files` derives from a row.
pub open spec fn record_of_row(rec: FileRecord, r: FileRow) -> bool {
    &&& rec.hash@ == r.hash@
    &&& rec.path@ == r.path@
    &&& rec.file_size == r.file_size
    &&& rec.mtime == r.mtime
    &&& rec.bpm_millis == r.bpm_millis
    &&& rec.channel_count == Some(r.channel_count as i64)
    &&& rec.plugins_json matches Some(p) && p@ == r.plugins_json@
    &&& rec.fl_version.deep_view() == r.fl_version.deep_view()
}

/// The whole persisted state.
pub struct StoreModel {
    pub files: Vec<FileRow>,
    pub path_index: Vec<PathRow>,
    pub settings: Vec<SettingRow>,
    pub song_groups: Vec<GroupRow>,
    pub group_files: Vec<GroupFileRow>,
}

pub open spec fn has_group_id(gs: Seq<GroupRow>, id: Seq<char>) -> bool {
    exists|j: int| 0 <= j < gs.len() && gs[j].group_id@ == id
}

impl StoreModel {
    /// Key and foreign-key invariants: hashes, paths, keys and group ids
    /// are unique; every path-index and group-file hash refers to a files
    /// row; every group-file id refers to a song group.
    pub open spec fn wf(self) -> bool {
        &&& (forall|i: int, j: int| 0 <= i < j < self.files@.len() ==>
                self.files@[i].hash@ != self.files@[j].hash@)
        &&& (forall|i: int, j: int| 0 <= i < j < self.path_index@.len() ==>
                self.path_index@[i].path@ != self.path_index@[j].path@)
        &&& (forall|i: int| 0 <= i < self.path_index@.len() ==>
                #[trigger] has_file_hash(self.files@, self.path_index@[i].hash@))
        &&& (forall|i: int, j: int| 0 <= i < j < self.settings@.len() ==>
                self.settings@[i].key@ != self.settings@[j].key@)
        &&& (forall|i: int, j: int| 0 <= i < j < self.song_groups@.len() ==>
                self.song_groups@[i].group_id@ != self.song_groups@[j].group_id@)
        &&& (forall|i: int, j: int| 0 <= i < j < self.group_files@.len() ==>
                !(self.group_files@[i].hash@ == self.group_files@[j].hash@
                    && self.group_files@[i].group_id@ == self.group_files@[j].group_id@))
        &&& (forall|i: int| 0 <= i < self.group_files@.len() ==>
                #[trigger] has_file_hash(self.files@, self.group_files@[i].hash@))
        &&& (forall|i: int| 0 <= i < self.group_files@.len() ==>
                #[trigger] has_group_id(self.song_groups@, self.group_files@[i].group_id@))
    }

    /// A fresh, empty store.
    pub fn new() -> (r: StoreModel)
        ensures
            r.wf(),
            r.files@.len() == 0,
            r.path_index@.len() == 0,
            r.settings@.len() == 0,
            r.song_groups@.len() == 0,
            r.group_files@.len() == 0,
    {
        StoreModel {
            files: Vec::new(),
            path_index: Vec::new(),
            settings: Vec::new(),
            song_groups: Vec::new(),
            group_files: Vec::new(),
        }
    }

    /// The cache check: an exact `(path, size, mtime)` hit in the path
    /// index means the file need not even be read.
    pub fn is_cached(&self, path: &str, file_size: i64, mtime: i64) -> (r: bool)
        ensures
            r == fresh_in(self.path_index@, path@, file_size as int, mtime as int),
    {
        let n = self.path_index.len();
        let mut i: usize = 0;
        while i < n
            invariant
                i <= n,
                n == self.path_index@.len(),
                forall|k: int| 0 <= k < i ==> !(#[trigger] self.path_index@[k].path@ == path@
                    && self.path_index@[k].file_size == file_size
                    && self.path_index@[k].mtime == mtime),
            decreases n - i,
        {
            let row = &self.path_index[i];
            if str_eq(row.path.as_str(), path) && row.file_size == file_size && row.mtime == mtime {
                return true;
            }
            i = i + 1;
        }
        false
    }

    /// Whether this content hash was ever stored.
    pub fn hash_in_cache(&self, hash: &str) -> (r: bool)
        ensures
            r == has_file_hash(self.files@, hash@),
    {
        let n = self.files.len();
        let mut i: usize = 0;
        while i < n
            invariant
                i <= n,
                n == self.files@.len(),
                forall|k: int| 0 <= k < i ==> #[trigger] self.files@[k].hash@ != hash@,
            decreases n - i,
        {
            if str_eq(self.files[i].hash.as_str(), hash) {
                return true;
            }
            i = i + 1;
        }
        false
    }

    /// Upserts the path-index row for `path`.  The hash must already be
    /// stored (the table's foreign key).
    pub fn update_path_index(&mut self, path: &str, hash: &str, file_size: i64, mtime: i64)
        requires
            old(self).wf(),
            has_file_hash(old(self).files@, hash@),
        ensures
            final(self).wf(),
            final(self).files == old(self).files,
            final(self).settings == old(self).settings,
            final(self).song_groups == old(self).song_groups,
            final(self).group_files == old(self).group_files,
            ({
                let k = path_idx(old(self).path_index@, path@);
                if k >= 0 {
                    final(self).path_index@.len() == old(self).path_index@.len()
                    && (forall|i: int| 0 <= i < old(self).path_index@.len() && i != k ==>
                        final(self).path_index@[i] == old(self).path_index@[i])
                    && path_row_is(final(self).path_index@[k], path@, hash@,
                        file_size as int, mtime as int)
                } else {
                    final(self).path_index@.len() == old(self).path_index@.len() + 1
                    && (forall|i: int| 0 <= i < old(self).path_index@.len() ==>
                        final(self).path_index@[i] == old(self).path_index@[i])
                    && path_row_is(final(self).path_index@[old(self).path_index@.len() as int],
                        path@, hash@, file_size as int, mtime as int)
                }
            }),
    {
        proof {
            lemma_path_idx(self.path_index@, path@);
        }
        let n = self.path_index.len();
        let mut i: usize = 0;
        while i < n
            invariant
                i <= n,
                n == self.path_index@.len(),
                *self == *old(self),
                old(self).wf(),
                has_file_hash(old(self).files@, hash@),
                forall|k: int| 0 <= k < i ==> #[trigger] self.path_index@[k].path@ != path@,
            decreases n - i,
        {
            if str_eq(self.path_index[i].path.as_str(), path) {
                proof {
                    lemma_path_idx(self.path_index@, path@);
                    lemma_path_idx_at(self.path_index@, path@, i as int);
                }
                let row = PathRow {
                    path: path.to_owned(),
                    hash: hash.to_owned(),
                    file_size: file_size,
                    mtime: mtime,
                };
                let ghost oldpi = self.path_index@;
                self.path_index.set(i, row);
                proof {
                    assert forall|a: int, b: int|
                        0 <= a < b < self.path_index@.len() implies
                        self.path_index@[a].path@ != self.path_index@[b].path@ by {
                        assert(oldpi[a].path@ != oldpi[b].path@);
                        if a == i as int {
                            assert(self.path_index@[a].path@ == oldpi[a].path@);
                        }
                        if b == i as int {
                            assert(self.path_index@[b].path@ == oldpi[b].path@);
                        }
                    }
                    assert forall|ii: int| 0 <= ii < self.path_index@.len() implies
                        #[trigger] has_file_hash(self.files@, self.path_index@[ii].hash@) by {
                        if ii == i as int {
                            assert(self.path_index@[ii].hash@ == hash@);
                        } else {
                            assert(self.path_index@[ii] == oldpi[ii]);
                        }
                    }
                }
                return;
            }
            proof {
                lemma_path_idx_at(self.path_index@, path@, i as int);
            }
            i = i + 1;
        }
        proof {
            lemma_path_idx(self.path_index@, path@);
        }
        let row = PathRow {
            path: path.to_owned(),
            hash: hash.to_owned(),
            file_size: file_size,
            mtime: mtime,
        };
        self.path_index.push(row);
    }

    /// Reads a setting, if stored.
    pub fn get_setting(&self, key: &str) -> (r: Option<String>)
        ensures
            ({
                let k = setting_idx(self.settings@, key@);
                if k >= 0 {
                    r matches Some(v) && v@ == self.settings@[k].value@
                } else {
                    r is None
                }
            }),
    {
        proof {
            lemma_setting_idx(self.settings@, key@);
        }
        let n = self.settings.len();
        let mut i: usize = 0;
        while i < n
            invariant
                i <= n,
                n == self.settings@.len(),
                forall|k: int| 0 <= k < i ==> #[trigger] self.settings@[k].key@ != key@,
            decreases n - i,
        {
            if str_eq(self.settings[i].key.as_str(), key) {
                proof {
                    lemma_setting_idx_at(self.settings@, key@, i as int);
                }
                return Some(self.settings[i].value.clone());
            }
            proof {
                lemma_setting_idx_at(self.settings@, key@, i as int);
            }
            i = i + 1;
        }
        None
    }

    /// Writes (or overwrites) a setting.
    pub fn set_setting(&mut self, key: &str, value: &str)
        requires
            old(self).wf(),
        ensures
            final(self).wf(),
            final(self).files == old(self).files,
            final(self).path_index == old(self).path_index,
            final(self).song_groups == old(self).song_groups,
            final(self).group_files == old(self).group_files,
            ({
                let k = setting_idx(old(self).settings@, key@);
                if k >= 0 {
                    final(self).settings@.len() == old(self).settings@.len()
                    && (forall|i: int| 0 <= i < old(self).settings@.len() && i != k ==>
                        final(self).settings@[i] == old(self).settings@[i])
                    && final(self).settings@[k].key@ == key@
                    && final(self).settings@[k].value@ == value@
                } else {
                    final(self).settings@.len() == old(self).settings@.len() + 1
                    && (forall|i: int| 0 <= i < old(self).settings@.len() ==>
                        final(self).settings@[i] == old(self).settings@[i])
                    && final(self).settings@[old(self).settings@.len() as int].key@ == key@
                    && final(self).settings@[old(self).settings@.len() as int].value@ == value@
                }
            }),
    {
        proof {
            lemma_setting_idx(self.settings@, key@);
        }
        let n = self.settings.len();
        let mut i: usize = 0;
        while i < n
            invariant
                i <= n,
                n == self.settings@.len(),
                *self == *old(self),
                old(self).wf(),
                forall|k: int| 0 <= k < i ==> #[trigger] self.settings@[k].key@ != key@,
            decreases n - i,
        {
            if str_eq(self.settings[i].key.as_str(), key) {
                proof {
                    lemma_setting_idx_at(self.settings@, key@, i as int);
                }
                let row = SettingRow { key: key.to_owned(), value: value.to_owned() };
                let ghost olds = self.settings@;
                self.settings.set(i, row);
                proof {
                    assert forall|a: int, b: int|
                        0 <= a < b < self.settings@.len() implies
                        self.settings@[a].key@ != self.settings@[b].key@ by {
                        assert(olds[a].key@ != olds[b].key@);
                        if a == i as int {
                            assert(self.settings@[a].key@ == olds[a].key@);
                        }
                        if b == i as int {
                            assert(self.settings@[b].key@ == olds[b].key@);
                        }
                    }
                }
                return;
            }
            proof {
                lemma_setting_idx_at(self.settings@, key@, i as int);
            }
            i = i + 1;
        }
        let row = SettingRow { key: key.to_owned(), value: value.to_owned() };
        self.settings.push(row);
    }
}


/// A clone of an optional string, field for field.
pub fn clone_opt_string(o: &Option<String>) -> (r: Option<String>)
    ensures
        r.deep_view() == o.deep_view(),
{
    match o {
        Some(s) => Some(s.clone()),
        None => None,
    }
}

pub proof fn lemma_path_idx(pi: Seq<PathRow>, path: Seq<char>)
    ensures
        -1 <= path_idx(pi, path) < pi.len(),
        path_idx(pi, path) >= 0 ==> pi[path_idx(pi, path)].path@ == path,
    decreases pi.len(),
{
    if pi.len() > 0 && pi[0].path@ != path {
        lemma_path_idx(pi.skip(1), path);
    }
}

/// If the first `i` rows miss `path` and row `i` hits it, the index is `i`;
/// if all rows up to the end miss it, the index is `-1`.
proof fn lemma_path_idx_at(pi: Seq<PathRow>, path: Seq<char>, i: int)
    requires
        0 <= i <= pi.len(),
        forall|k: int| 0 <= k < i ==> #[trigger] pi[k].path@ != path,
    ensures
        i < pi.len() && pi[i].path@ == path ==> path_idx(pi, path) == i,
        i == pi.len() ==> path_idx(pi, path) == -1,
    decreases pi.len(),
{
    if pi.len() > 0 {
        if pi[0].path@ == path {
        } else {
            assert forall|k: int| 0 <= k < i - 1 implies
                #[trigger] pi.skip(1)[k].path@ != path by {
                assert(pi.skip(1)[k] == pi[k + 1]);
            }
            if i > 0 {
                lemma_path_idx_at(pi.skip(1), path, i - 1);
            } else {
                lemma_path_idx_at(pi.skip(1), path, 0);
            }
            lemma_path_idx(pi.skip(1), path);
        }
    }
}

proof fn lemma_setting_idx(s: Seq<SettingRow>, key: Seq<char>)
    ensures
        -1 <= setting_idx(s, key) < s.len(),
        setting_idx(s, key) >= 0 ==> s[setting_idx(s, key)].key@ == key,
    decreases s.len(),
{
    if s.len() > 0 && s[0].key@ != key {
        lemma_setting_idx(s.skip(1), key);
    }
}

proof fn lemma_setting_idx_at(s: Seq<SettingRow>, key: Seq<char>, i: int)
    requires
        0 <= i <= s.len(),
        forall|k: int| 0 <= k < i ==> #[trigger] s[k].key@ != key,
    ensures
        i < s.len() && s[i].key@ == key ==> setting_idx(s, key) == i,
        i == s.len() ==> setting_idx(s, key) == -1,
    decreases s.len(),
{
    if s.len() > 0 {
        if s[0].key@ == key {
        } else {
            assert forall|k: int| 0 <= k < i - 1 implies
                #[trigger] s.skip(1)[k].key@ != key by {
                assert(s.skip(1)[k] == s[k + 1]);
            }
            if i > 0 {
                lemma_setting_idx_at(s.skip(1), key, i - 1);
            } else {
                lemma_setting_idx_at(s.skip(1), key, 0);
            }
            lemma_setting_idx(s.skip(1), key);
        }
    }
}


impl StoreModel {
    /// Inserts or refreshes the `files` row for this content hash from a
    /// parse result, then points the path index at it.
    pub fn upsert_file(
        &mut self,
        hash: &str,
        path: &str,
        file_size: i64,
        mtime: i64,
        meta: &FlpMetadata,
        parsed_at: i64,
    )
        requires
            old(self).wf(),
        ensures
            final(self).wf(),
            final(self).settings == old(self).settings,
            final(self).song_groups == old(self).song_groups,
            final(self).group_files == old(self).group_files,
            ({
                let k = file_idx(old(self).files@, hash@);
                if k >= 0 {
                    final(self).files@.len() == old(self).files@.len()
                    && (forall|i: int| 0 <= i < old(self).files@.len() && i != k ==>
                        final(self).files@[i] == old(self).files@[i])
                    && file_row_is(final(self).files@[k], hash@, path@,
                        file_size as int, mtime as int, meta@, parsed_at as int)
                } else {
                    final(self).files@.len() == old(self).files@.len() + 1
                    && (forall|i: int| 0 <= i < old(self).files@.len() ==>
                        final(self).files@[i] == old(self).files@[i])
                    && file_row_is(final(self).files@[old(self).files@.len() as int],
                        hash@, path@, file_size as int, mtime as int, meta@, parsed_at as int)
                }
            }),
            ({
                let k = path_idx(old(self).path_index@, path@);
                if k >= 0 {
                    final(self).path_index@.len() == old(self).path_index@.len()
                    && (forall|i: int| 0 <= i < old(self).path_index@.len() && i != k ==>
                        final(self).path_index@[i] == old(self).path_index@[i])
                    && path_row_is(final(self).path_index@[k], path@, hash@,
                        file_size as int, mtime as int)
                } else {
                    final(self).path_index@.len() == old(self).path_index@.len() + 1
                    && (forall|i: int| 0 <= i < old(self).path_index@.len() ==>
                        final(self).path_index@[i] == old(self).path_index@[i])
                    && path_row_is(final(self).path_index@[old(self).path_index@.len() as int],
                        path@, hash@, file_size as int, mtime as int)
                }
            }),
    {
        // the persisted plugin list: generator plugin-or-name, then effects
        let mut plugins: Vec<String> = Vec::new();
        let gn = meta.generators.len();
        let mut gi: usize = 0;
        while gi < gn
            invariant
                gi <= gn,
                gn == meta.generators@.len(),
                plugins.deep_view() =~= gen_plugin_names(meta@.generators.take(gi as int)),
            decreases gn - gi,
        {
            let g = &meta.generators[gi];
            let entry = match &g.plugin_name {
                Some(p) => p.clone(),
                None => g.name.clone(),
            };
            let ghost pv = plugins@;
            let ghost pdv = plugins.deep_view();
            plugins.push(entry);
            proof {
                let dv = plugins.deep_view();
                let rhs = gen_plugin_names(meta@.generators.take(gi + 1));
                assert(plugins@.len() == pv.len() + 1);
                assert(dv.len() == plugins@.len());
                assert(pdv.len() == pv.len());
                assert(pdv == gen_plugin_names(meta@.generators.take(gi as int)));
                assert(pdv.len() == gi as int);
                assert(dv.len() == gi + 1);
                assert(meta@.generators.len() == meta.generators@.len());
                assert(rhs.len() == gi + 1);
                assert forall|k: int| 0 <= k < gi + 1 implies dv[k] == rhs[k] by {
                    if k < gi {
                        assert(plugins@[k] == pv[k]);
                        assert(dv[k] == pv[k].deep_view());
                        assert(pdv[k] == pv[k].deep_view());
                        assert(pdv[k] == gen_plugin_names(meta@.generators.take(gi as int))[k]);
                        assert(gen_plugin_names(meta@.generators.take(gi as int))[k]
                            == rhs[k]);
                    } else {
                        assert(plugins@[k] == entry);
                        assert(dv[k] == entry@);
                        assert(meta@.generators.take(gi + 1)[k] == meta@.generators[k]);
                        assert(meta@.generators[k] == meta.generators@[k].deep_view());
                    }
                }
                assert(dv =~= rhs);
            }
            gi = gi + 1;
        }
        proof {
            assert(meta@.generators.take(gn as int) =~= meta@.generators);
            assert(meta@.effects.take(0) =~= Seq::<Seq<char>>::empty());
            assert(plugins.deep_view() =~= gen_plugin_names(meta@.generators)
                + meta@.effects.take(0));
        }
        let en = meta.effects.len();
        let mut ei: usize = 0;
        while ei < en
            invariant
                ei <= en,
                en == meta.effects@.len(),
                plugins.deep_view() =~= gen_plugin_names(meta@.generators)
                    + meta@.effects.take(ei as int),
            decreases en - ei,
        {
            let ghost pv = plugins@;
            let ghost pdv = plugins.deep_view();
            let e = meta.effects[ei].clone();
            let ghost gnames = gen_plugin_names(meta@.generators);
            plugins.push(e);
            proof {
                let dv = plugins.deep_view();
                let rhs = gnames + meta@.effects.take(ei + 1);
                assert(meta@.effects.len() == meta.effects@.len());
                assert(plugins@.len() == pv.len() + 1);
                assert(dv.len() == plugins@.len());
                assert(pdv.len() == pv.len());
                assert(pdv == gnames + meta@.effects.take(ei as int));
                assert(pdv.len() == gnames.len() + ei);
                assert(dv.len() == rhs.len());
                assert forall|k: int| 0 <= k < dv.len() implies dv[k] == rhs[k] by {
                    if k < pv.len() {
                        assert(plugins@[k] == pv[k]);
                        assert(dv[k] == pv[k].deep_view());
                        assert(pdv[k] == pv[k].deep_view());
                        assert(pdv[k] == (gnames + meta@.effects.take(ei as int))[k]);
                        if k < gnames.len() {
                            assert(rhs[k] == gnames[k]);
                        } else {
                            assert(rhs[k] == meta@.effects.take(ei + 1)[k - gnames.len()]);
                            assert(meta@.effects.take(ei + 1)[k - gnames.len()]
                                == meta@.effects[k - gnames.len()]);
                            assert((gnames + meta@.effects.take(ei as int))[k]
                                == meta@.effects.take(ei as int)[k - gnames.len()]);
                        }
                    } else {
                        assert(plugins@[k] == e);
                        assert(dv[k] == e@);
                        assert(e@ == meta.effects@[ei as int]@);
                        assert(rhs[k] == meta@.effects.take(ei + 1)[k - gnames.len()]);
                        assert(k - gnames.len() == ei as int);
                        assert(meta@.effects[ei as int] == meta.effects@[ei as int].deep_view());
                    }
                }
                assert(dv =~= rhs);
            }
            ei = ei + 1;
        }
        proof {
            assert(meta@.generators.take(gn as int) =~= meta@.generators);
            assert(meta@.effects.take(en as int) =~= meta@.effects);
            assert(plugins.deep_view() =~= gen_plugin_names(meta@.generators) + meta@.effects);
            assert(plugins.deep_view() =~= plugins_of(meta@));
        }
        let plugins_json = json_encode_strings(&plugins);
        let warnings_json = json_encode_strings(&meta.warnings);

        proof {
            lemma_file_idx(self.files@, hash@);
        }
        let n = self.files.len();
        let mut i: usize = 0;
        while i < n
            invariant
                i <= n,
                n == self.files@.len(),
                *self == *old(self),
                old(self).wf(),
                plugins_json@ == json_strings_of(plugins_of(meta@)),
                warnings_json@ == json_strings_of(meta@.warnings),
                forall|k: int| 0 <= k < i ==> #[trigger] self.files@[k].hash@ != hash@,
            decreases n - i,
        {
            if str_eq(self.files[i].hash.as_str(), hash) {
                proof {
                    lemma_file_idx_at(self.files@, hash@, i as int);
                }
                let row = FileRow {
                    hash: hash.to_owned(),
                    path: path.to_owned(),
                    file_size: file_size,
                    mtime: mtime,
                    bpm_millis: meta.bpm_millis,
                    time_sig_num: meta.time_sig_num,
                    time_sig_den: meta.time_sig_den,
                    channel_count: meta.channel_count,
                    pattern_count: meta.pattern_count,
                    mixer_track_count: meta.mixer_track_count,
                    plugins_json: plugins_json.clone(),
                    warnings_json: warnings_json.clone(),
                    fl_version: clone_opt_string(&meta.fl_version),
                    parsed_at: parsed_at,
                };
                assert(file_row_is(row, hash@, path@, file_size as int, mtime as int,
                    meta@, parsed_at as int));
                let ghost oldf = self.files@;
                self.files.set(i, row);
                proof {
                    assert(self.files@[i as int].hash@ == hash@);
                    assert(oldf[i as int].hash@ == hash@);
                    assert forall|a: int, b: int|
                        0 <= a < b < self.files@.len() implies
                        self.files@[a].hash@ != self.files@[b].hash@ by {
                        assert(oldf[a].hash@ != oldf[b].hash@);
                        if a == i as int {
                            assert(self.files@[a].hash@ == oldf[a].hash@);
                        }
                        if b == i as int {
                            assert(self.files@[b].hash@ == oldf[b].hash@);
                        }
                    }
                    assert forall|ii: int| 0 <= ii < self.path_index@.len() implies
                        #[trigger] has_file_hash(self.files@, self.path_index@[ii].hash@) by {
                        assert(self.path_index@[ii] == old(self).path_index@[ii]);
                        assert(has_file_hash(old(self).files@, old(self).path_index@[ii].hash@));
                        let j = choose|j: int| 0 <= j < oldf.len()
                            && #[trigger] oldf[j].hash@ == self.path_index@[ii].hash@;
                        if j == i as int {
                            assert(self.files@[j].hash@ == hash@);
                            assert(oldf[j].hash@ == hash@);
                        } else {
                            assert(self.files@[j] == oldf[j]);
                        }
                        assert(self.files@[j].hash@ == self.path_index@[ii].hash@);
                    }
                    assert forall|ii: int| 0 <= ii < self.group_files@.len() implies
                        #[trigger] has_file_hash(self.files@, self.group_files@[ii].hash@) by {
                        assert(self.group_files@[ii] == old(self).group_files@[ii]);
                        assert(has_file_hash(old(self).files@, old(self).group_files@[ii].hash@));
                        let j = choose|j: int| 0 <= j < oldf.len()
                            && #[trigger] oldf[j].hash@ == self.group_files@[ii].hash@;
                        if j == i as int {
                            assert(self.files@[j].hash@ == hash@);
                            assert(oldf[j].hash@ == hash@);
                        } else {
                            assert(self.files@[j] == oldf[j]);
                        }
                        assert(self.files@[j].hash@ == self.group_files@[ii].hash@);
                    }
                    assert(has_file_hash(self.files@, hash@)) by {
                        assert(self.files@[i as int].hash@ == hash@);
                    }
                }
                self.update_path_index(path, hash, file_size, mtime);
                return;
            }
            proof {
                lemma_file_idx_at(self.files@, hash@, i as int);
            }
            i = i + 1;
        }
        proof {
            lemma_file_idx_at(self.files@, hash@, n as int);
        }
        let row = FileRow {
            hash: hash.to_owned(),
            path: path.to_owned(),
            file_size: file_size,
            mtime: mtime,
            bpm_millis: meta.bpm_millis,
            time_sig_num: meta.time_sig_num,
            time_sig_den: meta.time_sig_den,
            channel_count: meta.channel_count,
            pattern_count: meta.pattern_count,
            mixer_track_count: meta.mixer_track_count,
            plugins_json: plugins_json,
            warnings_json: warnings_json,
            fl_version: clone_opt_string(&meta.fl_version),
            parsed_at: parsed_at,
        };
        assert(file_row_is(row, hash@, path@, file_size as int, mtime as int,
            meta@, parsed_at as int));
        let ghost oldf = self.files@;
        self.files.push(row);
        proof {
            assert forall|a: int, b: int|
                0 <= a < b < self.files@.len() implies
                self.files@[a].hash@ != self.files@[b].hash@ by {
                if b < oldf.len() {
                    assert(oldf[a].hash@ != oldf[b].hash@);
                } else {
                    assert(self.files@[b].hash@ == hash@);
                    assert(self.files@[a] == oldf[a]);
                }
            }
            assert forall|ii: int| 0 <= ii < self.path_index@.len() implies
                #[trigger] has_file_hash(self.files@, self.path_index@[ii].hash@) by {
                assert(self.path_index@[ii] == old(self).path_index@[ii]);
                assert(has_file_hash(old(self).files@, old(self).path_index@[ii].hash@));
                let j = choose|j: int| 0 <= j < oldf.len()
                    && #[trigger] oldf[j].hash@ == self.path_index@[ii].hash@;
                assert(self.files@[j] == oldf[j]);
                assert(self.files@[j].hash@ == self.path_index@[ii].hash@);
            }
            assert forall|ii: int| 0 <= ii < self.group_files@.len() implies
                #[trigger] has_file_hash(self.files@, self.group_files@[ii].hash@) by {
                assert(self.group_files@[ii] == old(self).group_files@[ii]);
                assert(has_file_hash(old(self).files@, old(self).group_files@[ii].hash@));
                let j = choose|j: int| 0 <= j < oldf.len()
                    && #[trigger] oldf[j].hash@ == self.group_files@[ii].hash@;
                assert(self.files@[j] == oldf[j]);
                assert(self.files@[j].hash@ == self.group_files@[ii].hash@);
            }
            assert(has_file_hash(self.files@, hash@)) by {
                assert(self.files@[oldf.len() as int].hash@ == hash@);
            }
        }
        self.update_path_index(path, hash, file_size, mtime);
    }

    /// All stored records, ordered by path.
    pub fn list_all_files(&self) -> (r: Vec<FileRecord>)
        ensures
            r@.len() == self.files@.len(),
            forall|i: int, j: int| 0 <= i < j < r@.len() ==>
                lex_le(r@[i].path@, r@[j].path@),
            forall|i: int| 0 <= i < r@.len() ==>
                #[trigger] from_some_row(self.files@, r@[i]),
            forall|j: int| 0 <= j < self.files@.len() ==>
                #[trigger] listed_somewhere(r@, self.files@[j]),
    {
        let n = self.files.len();
        let mut r: Vec<FileRecord> = Vec::new();
        let mut i: usize = 0;
        while i < n
            invariant
                i <= n,
                n == self.files@.len(),
                r@.len() == i,
                forall|a: int, b: int| 0 <= a < b < r@.len() ==>
                    lex_le(r@[a].path@, r@[b].path@),
                forall|a: int| 0 <= a < r@.len() ==>
                    #[trigger] from_some_row(self.files@, r@[a]),
                forall|j: int| 0 <= j < i ==>
                    #[trigger] listed_somewhere(r@, self.files@[j]),
            decreases n - i,
        {
            let row = &self.files[i];
            let rec = FileRecord {
                hash: row.hash.clone(),
                path: row.path.clone(),
                file_size: row.file_size,
                mtime: row.mtime,
                bpm_millis: row.bpm_millis,
                channel_count: Some(row.channel_count as i64),
                plugins_json: Some(row.plugins_json.clone()),
                fl_version: clone_opt_string(&row.fl_version),
            };
            assert(record_of_row(rec, self.files@[i as int]));
            // find the insertion point that keeps the list ordered
            let m = r.len();
            let mut p: usize = 0;
            while p < m && str_lt(r[p].path.as_str(), rec.path.as_str())
                invariant
                    p <= m,
                    m == r@.len(),
                    forall|k: int| 0 <= k < p ==> lex_lt(#[trigger] r@[k].path@, rec.path@),
                decreases m - p,
            {
                p = p + 1;
            }
            let ghost oldr = r@;
            let ghost reci = rec;
            r.insert(p, rec);
            proof {
                assert(r@ =~= oldr.insert(p as int, reci));
                assert forall|a: int, b: int| 0 <= a < b < r@.len() implies
                    lex_le(r@[a].path@, r@[b].path@) by {
                    crate::text::lemma_lex_total(reci.path@, oldr[if (p as int) <= a { a } else { 0 }].path@);
                    if a == p as int {
                        // reci before everything from p on
                        crate::text::lemma_lex_total(reci.path@, r@[b].path@);
                        if b - 1 < oldr.len() {
                            assert(r@[b] == oldr[b - 1]);
                            if (p as int) <= b - 1 {
                                crate::text::lemma_lex_total(reci.path@, oldr[p as int].path@);
                                if (p as int) < b - 1 {
                                    assert(lex_le(oldr[p as int].path@, oldr[b - 1].path@));
                                }
                                crate::text::lemma_lex_trans(reci.path@, oldr[p as int].path@,
                                    oldr[b - 1].path@);
                            }
                        }
                    } else if b == p as int {
                        assert(r@[a] == oldr[a]);
                        assert(lex_lt(oldr[a].path@, reci.path@));
                    } else {
                        let a0 = if a < (p as int) { a } else { a - 1 };
                        let b0 = if b < (p as int) { b } else { b - 1 };
                        assert(r@[a] == oldr[a0]);
                        assert(r@[b] == oldr[b0]);
                        if a0 < b0 {
                            assert(lex_le(oldr[a0].path@, oldr[b0].path@));
                        } else {
                            // a before p, b after: a0 == b0 crosses the pivot
                            assert(a < (p as int) && (p as int) < b);
                            assert(lex_le(oldr[a0].path@, oldr[b0].path@));
                        }
                    }
                }
                assert forall|a: int| 0 <= a < r@.len() implies
                    #[trigger] from_some_row(self.files@, r@[a]) by {
                    if a == p as int {
                        assert(record_of_row(r@[a], self.files@[i as int]));
                    } else {
                        let a0 = if a < (p as int) { a } else { a - 1 };
                        assert(r@[a] == oldr[a0]);
                        assert(from_some_row(self.files@, oldr[a0]));
                    }
                }
                assert forall|j: int| 0 <= j < i + 1 implies
                    #[trigger] listed_somewhere(r@, self.files@[j]) by {
                    if j == i as int {
                        assert(r@[p as int] == reci);
                        assert(record_of_row(r@[p as int], self.files@[j]));
                    } else {
                        assert(listed_somewhere(oldr, self.files@[j]));
                        let a = choose|a: int| 0 <= a < oldr.len()
                            && record_of_row(oldr[a], self.files@[j]);
                        if a < p as int {
                            assert(r@[a] == oldr[a]);
                        } else {
                            assert(r@[a + 1] == oldr[a]);
                        }
                    }
                }
            }
            i = i + 1;
        }
        r
    }
}

/// `rec` is the projection of some stored row.
pub open spec fn from_some_row(files: Seq<FileRow>, rec: FileRecord) -> bool {
    exists|j: int| 0 <= j < files.len() && record_of_row(rec, files[j])
}

/// Some listed record projects this row.
pub open spec fn listed_somewhere(r: Seq<FileRecord>, row: FileRow) -> bool {
    exists|a: int| 0 <= a < r.len() && record_of_row(r[a], row)
}

proof fn lemma_file_idx(files: Seq<FileRow>, h: Seq<char>)
    ensures
        -1 <= file_idx(files, h) < files.len(),
        file_idx(files, h) >= 0 ==> files[file_idx(files, h)].hash@ == h,
    decreases files.len(),
{
    if files.len() > 0 && files[0].hash@ != h {
        lemma_file_idx(files.skip(1), h);
    }
}

proof fn lemma_file_idx_at(files: Seq<FileRow>, h: Seq<char>, i: int)
    requires
        0 <= i <= files.len(),
        forall|k: int| 0 <= k < i ==> #[trigger] files[k].hash@ != h,
    ensures
        i < files.len() && files[i].hash@ == h ==> file_idx(files, h) == i,
        i == files.len() ==> file_idx(files, h) == -1,
    decreases files.len(),
{
    if files.len() > 0 {
        if files[0].hash@ == h {
        } else {
            assert forall|k: int| 0 <= k < i - 1 implies
                #[trigger] files.skip(1)[k].hash@ != h by {
                assert(files.skip(1)[k] == files[k + 1]);
            }
            if i > 0 {
                lemma_file_idx_at(files.skip(1), h, i - 1);
            } else {
                lemma_file_idx_at(files.skip(1), h, 0);
            }
            lemma_file_idx(files.skip(1), h);
        }
    }
}


/// A confirmed group as listings return it.
#[derive(Clone, Debug)]
pub struct ConfirmedGroup {
    pub group_id: String,
    pub canonical_name: String,
    pub file_hashes: Vec<String>,
    pub ignored_hashes: Vec<String>,
}

/// One group the user asks to confirm.
#[derive(Clone, Debug)]
pub struct GroupConfirmation {
    pub canonical_name: String,
    pub file_hashes: Vec<String>,
    pub ignored_hashes: Vec<String>,
}

/// `xs` holds the string `h`.
pub open spec fn strs_contain(xs: Seq<Seq<char>>, h: Seq<char>) -> bool {
    exists|i: int| 0 <= i < xs.len() && xs[i] == h
}

/// A group-file row with these fields exists.
pub open spec fn gf_exists(
    rows: Seq<GroupFileRow>,
    h: Seq<char>,
    gid: Seq<char>,
    ign: bool,
    now: int,
) -> bool {
    exists|i: int| 0 <= i < rows.len() && rows[i].hash@ == h && rows[i].group_id@ == gid
        && rows[i].is_ignored == ign && rows[i].manually_assigned == false
        && rows[i].assigned_at == now
}

/// A row is one of the edges a confirmation asks for: a listed file hash,
/// ignored exactly when it also stands in the ignored list, or an
/// ignored-only hash; either way written at `now` and not manually
/// assigned.
pub open spec fn specified_edge(c: GroupConfirmation, row: GroupFileRow, now: int) -> bool {
    &&& row.manually_assigned == false
    &&& row.assigned_at == now
    &&& (if strs_contain(c.file_hashes.deep_view(), row.hash@) {
            row.is_ignored == strs_contain(c.ignored_hashes.deep_view(), row.hash@)
        } else {
            strs_contain(c.ignored_hashes.deep_view(), row.hash@) && row.is_ignored == true
        })
}

/// The row is a specified edge of one of the batch's groups, carrying the
/// identifier that the group's row at `old_len + g` was given.
pub open spec fn edge_of_batch(
    groups: Seq<GroupConfirmation>,
    old_len: int,
    sgs: Seq<GroupRow>,
    row: GroupFileRow,
    now: int,
) -> bool {
    exists|g: int| 0 <= g < groups.len()
        && row.group_id@ == (#[trigger] sgs[old_len + g]).group_id@
        && specified_edge(groups[g], row, now)
}

/// A confirmation the store accepts: all hashes refer to stored files and
/// the file hashes are pairwise distinct.
pub open spec fn valid_confirmation(files: Seq<FileRow>, c: GroupConfirmation) -> bool {
    &&& (forall|k: int| 0 <= k < c.file_hashes@.len() ==>
            has_file_hash(files, (#[trigger] c.file_hashes@[k])@))
    &&& (forall|k: int| 0 <= k < c.ignored_hashes@.len() ==>
            has_file_hash(files, (#[trigger] c.ignored_hashes@[k])@))
    &&& (forall|k1: int, k2: int| 0 <= k1 < k2 < c.file_hashes@.len() ==>
            (c.file_hashes@[k1])@ != (c.file_hashes@[k2])@)
}

impl StoreModel {
    /// Whether any group was confirmed.
    pub fn has_confirmed_groups(&self) -> (r: bool)
        ensures
            r == (self.song_groups@.len() > 0),
    {
        self.song_groups.len() > 0
    }

    /// Removes all confirmed groups, edges first.
    pub fn clear_all_groups(&mut self) -> (r: Result<(), String>)
        requires
            old(self).wf(),
        ensures
            final(self).wf(),
            r is Ok,
            final(self).files == old(self).files,
            final(self).path_index == old(self).path_index,
            final(self).settings == old(self).settings,
            final(self).song_groups@.len() == 0,
            final(self).group_files@.len() == 0,
    {
        self.group_files = Vec::new();
        self.song_groups = Vec::new();
        Ok(())
    }

    /// The first active (non-ignored) group of this file, if any.
    pub fn get_group_for_file(&self, hash: &str) -> (r: Option<String>)
        ensures
            ({
                let rows = self.group_files@;
                match r {
                    Some(gid) => exists|i: int| 0 <= i < rows.len()
                        && (#[trigger] rows[i]).hash@ == hash@ && !rows[i].is_ignored
                        && gid@ == rows[i].group_id@,
                    None => forall|i: int| 0 <= i < rows.len() ==>
                        !((#[trigger] rows[i]).hash@ == hash@ && !rows[i].is_ignored),
                }
            }),
    {
        let n = self.group_files.len();
        let mut i: usize = 0;
        while i < n
            invariant
                i <= n,
                n == self.group_files@.len(),
                forall|k: int| 0 <= k < i ==>
                    !((#[trigger] self.group_files@[k]).hash@ == hash@
                        && !self.group_files@[k].is_ignored),
            decreases n - i,
        {
            let row = &self.group_files[i];
            if !row.is_ignored && str_eq(row.hash.as_str(), hash) {
                return Some(row.group_id.clone());
            }
            i = i + 1;
        }
        None
    }

    /// Marks every assignment of this file as ignored.
    pub fn mark_file_ignored(&mut self, hash: &str) -> (r: Result<(), String>)
        requires
            old(self).wf(),
        ensures
            final(self).wf(),
            r is Ok,
            final(self).files == old(self).files,
            final(self).path_index == old(self).path_index,
            final(self).settings == old(self).settings,
            final(self).song_groups == old(self).song_groups,
            final(self).group_files@.len() == old(self).group_files@.len(),
            forall|i: int| 0 <= i < old(self).group_files@.len() ==> ({
                let o = old(self).group_files@[i];
                let f = #[trigger] final(self).group_files@[i];
                if o.hash@ == hash@ {
                    f.hash@ == o.hash@ && f.group_id@ == o.group_id@
                    && f.is_ignored == true
                    && f.manually_assigned == o.manually_assigned
                    && f.assigned_at == o.assigned_at
                } else {
                    f == o
                }
            }),
    {
        let n = self.group_files.len();
        let mut i: usize = 0;
        while i < n
            invariant
                i <= n,
                n == self.group_files@.len(),
                old(self).wf(),
                self.files == old(self).files,
                self.path_index == old(self).path_index,
                self.settings == old(self).settings,
                self.song_groups == old(self).song_groups,
                self.group_files@.len() == old(self).group_files@.len(),
                forall|k: int| i <= k < n ==>
                    #[trigger] self.group_files@[k] == old(self).group_files@[k],
                forall|k: int| 0 <= k < i ==> ({
                    let o = old(self).group_files@[k];
                    let f = #[trigger] self.group_files@[k];
                    if o.hash@ == hash@ {
                        f.hash@ == o.hash@ && f.group_id@ == o.group_id@
                        && f.is_ignored == true
                        && f.manually_assigned == o.manually_assigned
                        && f.assigned_at == o.assigned_at
                    } else {
                        f == o
                    }
                }),
            decreases n - i,
        {
            if str_eq(self.group_files[i].hash.as_str(), hash) {
                let old_row = &self.group_files[i];
                let row = GroupFileRow {
                    hash: old_row.hash.clone(),
                    group_id: old_row.group_id.clone(),
                    is_ignored: true,
                    manually_assigned: old_row.manually_assigned,
                    assigned_at: old_row.assigned_at,
                };
                self.group_files.set(i, row);
            }
            i = i + 1;
        }
        proof {
            assert forall|a: int, b: int|
                0 <= a < b < self.group_files@.len() implies
                !(self.group_files@[a].hash@ == self.group_files@[b].hash@
                    && self.group_files@[a].group_id@ == self.group_files@[b].group_id@) by {
                assert(!(old(self).group_files@[a].hash@ == old(self).group_files@[b].hash@
                    && old(self).group_files@[a].group_id@
                        == old(self).group_files@[b].group_id@));
            }
            assert forall|k: int| 0 <= k < self.group_files@.len() implies
                #[trigger] has_file_hash(self.files@, self.group_files@[k].hash@) by {
                assert(has_file_hash(old(self).files@, old(self).group_files@[k].hash@));
            }
            assert forall|k: int| 0 <= k < self.group_files@.len() implies
                #[trigger] has_group_id(self.song_groups@, self.group_files@[k].group_id@) by {
                assert(has_group_id(old(self).song_groups@,
                    old(self).group_files@[k].group_id@));
            }
        }
        Ok(())
    }

    /// Confirms a batch of groups in one step: each gets a fresh identifier,
    /// one `song_groups` row, one edge per listed hash (ignored when the
    /// hash also stands in the ignored list), and one ignored edge per
    /// ignored-only hash.  A hash that is not stored, or listed twice,
    /// fails the whole batch and changes nothing, like a rolled-back
    /// transaction.  Identifiers are random, so success is not promised,
    /// but a failure never mutates the store.
    pub fn confirm_groups(
        &mut self,
        groups: &Vec<GroupConfirmation>,
        now: i64,
    ) -> (r: Result<(), String>)
        requires
            old(self).wf(),
        ensures
            final(self).wf(),
            r is Err ==> *final(self) == *old(self),
            (exists|g: int| 0 <= g < groups@.len()
                && !valid_confirmation(old(self).files@, #[trigger] groups@[g])) ==> r is Err,
            groups@.len() == 0 ==> r is Ok,
            r is Ok ==> ({
                &&& final(self).files == old(self).files
                &&& final(self).path_index == old(self).path_index
                &&& final(self).settings == old(self).settings
                &&& final(self).song_groups@.len()
                    == old(self).song_groups@.len() + groups@.len()
                &&& (forall|i: int| 0 <= i < old(self).song_groups@.len() ==>
                    #[trigger] final(self).song_groups@[i] == old(self).song_groups@[i])
                &&& (forall|i: int| 0 <= i < old(self).group_files@.len() ==>
                    #[trigger] final(self).group_files@[i] == old(self).group_files@[i])
                &&& (forall|g: int| 0 <= g < groups@.len() ==> ({
                    let row = #[trigger] final(self).song_groups@[
                        old(self).song_groups@.len() + g];
                    row.canonical_name@ == (groups@[g].canonical_name)@
                    && row.confirmed_at == now && row.is_ignored == false
                    && row.group_id@.len() == 36
                }))
                &&& (forall|g: int, k: int|
                    0 <= g < groups@.len() && 0 <= k < groups@[g].file_hashes@.len() ==>
                    gf_exists(final(self).group_files@,
                        (#[trigger] groups@[g].file_hashes@[k])@,
                        final(self).song_groups@[old(self).song_groups@.len() + g].group_id@,
                        strs_contain(groups@[g].ignored_hashes.deep_view(),
                            (groups@[g].file_hashes@[k])@),
                        now as int))
                &&& (forall|g: int, k: int|
                    0 <= g < groups@.len() && 0 <= k < groups@[g].ignored_hashes@.len()
                    && !strs_contain(groups@[g].file_hashes.deep_view(),
                        (groups@[g].ignored_hashes@[k])@) ==>
                    gf_exists(final(self).group_files@,
                        (#[trigger] groups@[g].ignored_hashes@[k])@,
                        final(self).song_groups@[old(self).song_groups@.len() + g].group_id@,
                        true,
                        now as int))
                // nothing else is written: every new row is a specified edge
                // of the batch group whose fresh identifier it carries
                &&& (forall|i: int|
                    old(self).group_files@.len() <= i < final(self).group_files@.len() ==>
                    edge_of_batch(groups@, old(self).song_groups@.len() as int,
                        final(self).song_groups@,
                        #[trigger] final(self).group_files@[i], now as int))
            }),
    {
        let gn = groups.len();
        // validate everything first; nothing is written on failure
        let mut g: usize = 0;
        while g < gn
            invariant
                g <= gn,
                gn == groups@.len(),
                *self == *old(self),
                old(self).wf(),
                forall|h: int| 0 <= h < g ==>
                    valid_confirmation(self.files@, #[trigger] groups@[h]),
            decreases gn - g,
        {
            let conf = &groups[g];
            let fn_ = conf.file_hashes.len();
            let mut k: usize = 0;
            while k < fn_
                invariant
                    k <= fn_,
                    fn_ == conf.file_hashes@.len(),
                    conf == groups@[g as int],
                    groups@.len() > 0,
                    *self == *old(self),
                    old(self).wf(),
                    forall|h: int| 0 <= h < k ==>
                        has_file_hash(self.files@, (#[trigger] conf.file_hashes@[h])@),
                    forall|h1: int, h2: int| 0 <= h1 < h2 < k ==>
                        (conf.file_hashes@[h1])@ != (conf.file_hashes@[h2])@,
                decreases fn_ - k,
            {
                if !self.hash_in_cache(conf.file_hashes[k].as_str()) {
                    return Err("FOREIGN KEY constraint failed".to_owned());
                }
                let mut k2: usize = 0;
                while k2 < k
                    invariant
                        k2 <= k < fn_,
                        fn_ == conf.file_hashes@.len(),
                        conf == groups@[g as int],
                        groups@.len() > 0,
                        *self == *old(self),
                        old(self).wf(),
                        forall|h: int| 0 <= h < k2 ==>
                            (#[trigger] conf.file_hashes@[h])@ != (conf.file_hashes@[k as int])@,
                    decreases k - k2,
                {
                    if str_eq(conf.file_hashes[k2].as_str(), conf.file_hashes[k].as_str()) {
                        return Err(
                            "UNIQUE constraint failed: group_files.hash, group_files.group_id"
                                .to_owned());
                    }
                    k2 = k2 + 1;
                }
                k = k + 1;
            }
            let inn = conf.ignored_hashes.len();
            let mut k: usize = 0;
            while k < inn
                invariant
                    k <= inn,
                    inn == conf.ignored_hashes@.len(),
                    conf == groups@[g as int],
                    groups@.len() > 0,
                    *self == *old(self),
                    old(self).wf(),
                    forall|h: int| 0 <= h < k ==>
                        has_file_hash(self.files@, (#[trigger] conf.ignored_hashes@[h])@),
                decreases inn - k,
            {
                if !self.hash_in_cache(conf.ignored_hashes[k].as_str()) {
                    return Err("FOREIGN KEY constraint failed".to_owned());
                }
                k = k + 1;
            }
            g = g + 1;
        }

        // mint identifiers; a (vanishingly unlikely) collision fails the batch
        let mut ids: Vec<String> = Vec::new();
        let mut g: usize = 0;
        while g < gn
            invariant
                g <= gn,
                gn == groups@.len(),
                *self == *old(self),
                old(self).wf(),
                ids@.len() == g,
                forall|h: int| 0 <= h < g ==> (#[trigger] ids@[h])@.len() == 36,
                forall|h1: int, h2: int| 0 <= h1 < h2 < g ==> (ids@[h1])@ != (ids@[h2])@,
                forall|h: int, j: int| 0 <= h < g && 0 <= j < self.song_groups@.len() ==>
                    (#[trigger] ids@[h])@ != (#[trigger] self.song_groups@[j]).group_id@,
                forall|h: int| 0 <= h < gn ==>
                    valid_confirmation(self.files@, #[trigger] groups@[h]),
            decreases gn - g,
        {
            let id = new_group_id();
            // reject a duplicate against stored groups
            let sn = self.song_groups.len();
            let mut j: usize = 0;
            while j < sn
                invariant
                    j <= sn,
                    sn == self.song_groups@.len(),
                    groups@.len() > 0,
                    *self == *old(self),
                    old(self).wf(),
                    forall|h: int| 0 <= h < j ==>
                        id@ != (#[trigger] self.song_groups@[h]).group_id@,
                decreases sn - j,
            {
                if str_eq(self.song_groups[j].group_id.as_str(), id.as_str()) {
                    return Err("UNIQUE constraint failed: song_groups.group_id".to_owned());
                }
                j = j + 1;
            }
            // and against the ones minted in this batch
            let mut j: usize = 0;
            while j < g
                invariant
                    j <= g,
                    ids@.len() == g,
                    groups@.len() > 0,
                    *self == *old(self),
                    old(self).wf(),
                    forall|h: int| 0 <= h < j ==> id@ != (#[trigger] ids@[h])@,
                decreases g - j,
            {
                if str_eq(ids[j].as_str(), id.as_str()) {
                    return Err("UNIQUE constraint failed: song_groups.group_id".to_owned());
                }
                j = j + 1;
            }
            ids.push(id);
            g = g + 1;
        }

        // commit
        let ghost old_groups = self.song_groups@;
        let ghost old_gf = self.group_files@;
        let mut g: usize = 0;
        while g < gn
            invariant
                g <= gn,
                gn == groups@.len(),
                old(self).wf(),
                ids@.len() == gn,
                old_groups == old(self).song_groups@,
                old_gf == old(self).group_files@,
                old_gf.len() == old(self).group_files@.len(),
                self.files == old(self).files,
                self.path_index == old(self).path_index,
                self.settings == old(self).settings,
                forall|h: int| 0 <= h < gn ==> (#[trigger] ids@[h])@.len() == 36,
                forall|h1: int, h2: int| 0 <= h1 < h2 < gn ==> (ids@[h1])@ != (ids@[h2])@,
                forall|h: int, j: int| 0 <= h < gn && 0 <= j < old_groups.len() ==>
                    (#[trigger] ids@[h])@ != (#[trigger] old_groups[j]).group_id@,
                forall|h: int| 0 <= h < gn ==>
                    valid_confirmation(self.files@, #[trigger] groups@[h]),
                self.wf(),
                self.song_groups@.len() == old_groups.len() + g,
                forall|i: int| 0 <= i < old_groups.len() ==>
                    #[trigger] self.song_groups@[i] == old_groups[i],
                forall|h: int| 0 <= h < g ==> ({
                    let row = #[trigger] self.song_groups@[old_groups.len() + h];
                    row.canonical_name@ == (groups@[h].canonical_name)@
                    && row.confirmed_at == now && row.is_ignored == false
                    && row.group_id@ == (ids@[h])@
                }),
                forall|i: int| 0 <= i < old_gf.len() ==>
                    #[trigger] self.group_files@[i] == old_gf[i],
                old_gf.len() <= self.group_files@.len(),
                forall|h: int, k: int|
                    0 <= h < g && 0 <= k < groups@[h].file_hashes@.len() ==>
                    gf_exists(self.group_files@,
                        (#[trigger] groups@[h].file_hashes@[k])@,
                        (ids@[h])@,
                        strs_contain(groups@[h].ignored_hashes.deep_view(),
                            (groups@[h].file_hashes@[k])@),
                        now as int),
                forall|h: int, k: int|
                    0 <= h < g && 0 <= k < groups@[h].ignored_hashes@.len()
                    && !strs_contain(groups@[h].file_hashes.deep_view(),
                        (groups@[h].ignored_hashes@[k])@) ==>
                    gf_exists(self.group_files@,
                        (#[trigger] groups@[h].ignored_hashes@[k])@,
                        (ids@[h])@,
                        true,
                        now as int),
                // rows of this batch all use fresh ids, so new edges stay
                // unique, and each is a specified edge of its group
                forall|i: int| old_gf.len() <= i < self.group_files@.len() ==>
                    (exists|h: int| 0 <= h < g
                        && (#[trigger] self.group_files@[i]).group_id@ == (ids@[h])@
                        && specified_edge(groups@[h], self.group_files@[i], now as int)),
            decreases gn - g,
        {
            let conf = &groups[g];
            let id_ref = &ids[g];
            let grow = GroupRow {
                group_id: id_ref.clone(),
                canonical_name: conf.canonical_name.clone(),
                confirmed_at: now,
                is_ignored: false,
            };
            let ghost sg_before = self.song_groups@;
            self.song_groups.push(grow);
            proof {
                assert forall|a: int, b: int|
                    0 <= a < b < self.song_groups@.len() implies
                    self.song_groups@[a].group_id@ != self.song_groups@[b].group_id@ by {
                    if b < sg_before.len() {
                        assert(self.song_groups@[a] == sg_before[a]);
                        assert(self.song_groups@[b] == sg_before[b]);
                    } else {
                        assert(self.song_groups@[b].group_id@ == (ids@[g as int])@);
                        assert(self.song_groups@[a] == sg_before[a]);
                        if a < old_groups.len() {
                        } else {
                            let h2 = a - old_groups.len();
                            assert(sg_before[old_groups.len() + h2].group_id@
                                == (ids@[h2])@);
                            assert((ids@[h2])@ != (ids@[g as int])@);
                        }
                    }
                }
                assert forall|k: int| 0 <= k < self.group_files@.len() implies
                    #[trigger] has_group_id(self.song_groups@,
                        self.group_files@[k].group_id@) by {
                    assert(has_group_id(sg_before, self.group_files@[k].group_id@));
                    let j = choose|j: int| 0 <= j < sg_before.len()
                        && sg_before[j].group_id@ == self.group_files@[k].group_id@;
                    assert(self.song_groups@[j] == sg_before[j]);
                }
            }
            proof {
                assert forall|i: int| old_gf.len() <= i < self.group_files@.len() implies
                    (#[trigger] self.group_files@[i]).group_id@ != (ids@[g as int])@ by {
                    let h2 = choose|h2: int| 0 <= h2 < g
                        && (self.group_files@[i]).group_id@ == (ids@[h2])@
                        && specified_edge(groups@[h2], self.group_files@[i], now as int);
                    assert((ids@[h2])@ != (ids@[g as int])@);
                }
            }
            // edges for the listed hashes
            let fn_ = conf.file_hashes.len();
            let mut k: usize = 0;
            while k < fn_
                invariant
                    k <= fn_,
                    fn_ == conf.file_hashes@.len(),
                    conf == groups@[g as int],
                    g < gn,
                    gn == groups@.len(),
                    ids@.len() == gn,
                    id_ref == ids@[g as int],
                    old(self).wf(),
                    old_groups == old(self).song_groups@,
                    old_gf == old(self).group_files@,
                    forall|h1: int, h2: int| 0 <= h1 < h2 < gn ==>
                        (ids@[h1])@ != (ids@[h2])@,
                    forall|h: int, j2: int| 0 <= h < gn && 0 <= j2 < old_groups.len() ==>
                        (#[trigger] ids@[h])@ != (#[trigger] old_groups[j2]).group_id@,
                    valid_confirmation(self.files@, groups@[g as int]),
                    self.wf(),
                    self.files == old(self).files,
                    self.path_index == old(self).path_index,
                    self.settings == old(self).settings,
                    self.song_groups@.len() == old_groups.len() + g + 1,
                    forall|i: int| 0 <= i < old_groups.len() ==>
                        #[trigger] self.song_groups@[i] == old_groups[i],
                    forall|h: int| 0 <= h <= g ==> ({
                        let row = #[trigger] self.song_groups@[old_groups.len() + h];
                        row.group_id@ == (ids@[h])@
                    }),
                    forall|h: int| 0 <= h < g ==> ({
                        let row = #[trigger] self.song_groups@[old_groups.len() + h];
                        row.canonical_name@ == (groups@[h].canonical_name)@
                        && row.confirmed_at == now && row.is_ignored == false
                    }),
                    ({
                        let row = self.song_groups@[old_groups.len() + g];
                        row.canonical_name@ == (groups@[g as int].canonical_name)@
                        && row.confirmed_at == now && row.is_ignored == false
                    }),
                    forall|i: int| 0 <= i < old_gf.len() ==>
                        #[trigger] self.group_files@[i] == old_gf[i],
                    old_gf.len() <= self.group_files@.len(),
                    forall|h: int, k2: int|
                        0 <= h < g && 0 <= k2 < groups@[h].file_hashes@.len() ==>
                        gf_exists(self.group_files@,
                            (#[trigger] groups@[h].file_hashes@[k2])@,
                            (ids@[h])@,
                            strs_contain(groups@[h].ignored_hashes.deep_view(),
                                (groups@[h].file_hashes@[k2])@),
                            now as int),
                    forall|h: int, k2: int|
                        0 <= h < g && 0 <= k2 < groups@[h].ignored_hashes@.len()
                        && !strs_contain(groups@[h].file_hashes.deep_view(),
                            (groups@[h].ignored_hashes@[k2])@) ==>
                        gf_exists(self.group_files@,
                            (#[trigger] groups@[h].ignored_hashes@[k2])@,
                            (ids@[h])@,
                            true,
                            now as int),
                    forall|k2: int| 0 <= k2 < k ==>
                        gf_exists(self.group_files@,
                            (#[trigger] conf.file_hashes@[k2])@,
                            (ids@[g as int])@,
                            strs_contain(conf.ignored_hashes.deep_view(),
                                (conf.file_hashes@[k2])@),
                            now as int),
                    forall|i: int| old_gf.len() <= i < self.group_files@.len() ==>
                        (exists|h: int| 0 <= h <= g
                            && (#[trigger] self.group_files@[i]).group_id@ == (ids@[h])@),
                    // this group's edges so far are exactly the first k hashes
                    forall|i: int| old_gf.len() <= i < self.group_files@.len()
                        && (#[trigger] self.group_files@[i]).group_id@ == (ids@[g as int])@ ==>
                        (exists|k2: int| 0 <= k2 < k
                            && (conf.file_hashes@[k2])@ == self.group_files@[i].hash@),
                    // ... and carry exactly the asked-for fields
                    forall|i: int| old_gf.len() <= i < self.group_files@.len()
                        && (#[trigger] self.group_files@[i]).group_id@ == (ids@[g as int])@ ==>
                        (self.group_files@[i].is_ignored
                            == strs_contain(conf.ignored_hashes.deep_view(),
                                self.group_files@[i].hash@)
                        && self.group_files@[i].manually_assigned == false
                        && self.group_files@[i].assigned_at == now),
                    // rows of finished groups are their specified edges
                    forall|i: int| old_gf.len() <= i < self.group_files@.len()
                        && (#[trigger] self.group_files@[i]).group_id@ != (ids@[g as int])@ ==>
                        (exists|h: int| 0 <= h < g
                            && self.group_files@[i].group_id@ == (ids@[h])@
                            && specified_edge(groups@[h], self.group_files@[i], now as int)),
                decreases fn_ - k,
            {
                let h = &conf.file_hashes[k];
                let is_ign = contains_str(&conf.ignored_hashes, h.as_str());
                let row = GroupFileRow {
                    hash: h.clone(),
                    group_id: id_ref.clone(),
                    is_ignored: is_ign,
                    manually_assigned: false,
                    assigned_at: now,
                };
                let ghost gf_before = self.group_files@;
                self.group_files.push(row);
                proof {
                    assert(self.group_files@[gf_before.len() as int].hash@
                        == (conf.file_hashes@[k as int])@);

                    assert forall|h2: int, k2: int|
                        0 <= h2 < g && 0 <= k2 < groups@[h2].file_hashes@.len() implies
                        gf_exists(self.group_files@,
                            (#[trigger] groups@[h2].file_hashes@[k2])@,
                            (ids@[h2])@,
                            strs_contain(groups@[h2].ignored_hashes.deep_view(),
                                (groups@[h2].file_hashes@[k2])@),
                            now as int) by {
                        lemma_gf_exists_extend(gf_before, self.group_files@,
                            (groups@[h2].file_hashes@[k2])@, (ids@[h2])@,
                            strs_contain(groups@[h2].ignored_hashes.deep_view(),
                                (groups@[h2].file_hashes@[k2])@), now as int);
                    }
                    assert forall|h2: int, k2: int|
                        0 <= h2 < g && 0 <= k2 < groups@[h2].ignored_hashes@.len()
                        && !strs_contain(groups@[h2].file_hashes.deep_view(),
                            (groups@[h2].ignored_hashes@[k2])@) implies
                        gf_exists(self.group_files@,
                            (#[trigger] groups@[h2].ignored_hashes@[k2])@,
                            (ids@[h2])@, true, now as int) by {
                        lemma_gf_exists_extend(gf_before, self.group_files@,
                            (groups@[h2].ignored_hashes@[k2])@, (ids@[h2])@,
                            true, now as int);
                    }

                    assert forall|k2: int| 0 <= k2 < k implies
                        gf_exists(self.group_files@,
                            (#[trigger] conf.file_hashes@[k2])@,
                            (ids@[g as int])@,
                            strs_contain(conf.ignored_hashes.deep_view(),
                                (conf.file_hashes@[k2])@),
                            now as int) by {
                        lemma_gf_exists_extend(gf_before, self.group_files@,
                            (conf.file_hashes@[k2])@, (ids@[g as int])@,
                            strs_contain(conf.ignored_hashes.deep_view(),
                                (conf.file_hashes@[k2])@), now as int);
                    }
                    assert(gf_exists(self.group_files@, (conf.file_hashes@[k as int])@,
                        (ids@[g as int])@,
                        strs_contain(conf.ignored_hashes.deep_view(),
                            (conf.file_hashes@[k as int])@), now as int)) by {
                        let i = gf_before.len() as int;
                        assert(self.group_files@[i].hash@ == (conf.file_hashes@[k as int])@
                            && self.group_files@[i].group_id@ == (ids@[g as int])@
                            && self.group_files@[i].is_ignored
                                == strs_contain(conf.ignored_hashes.deep_view(),
                                    (conf.file_hashes@[k as int])@)
                            && self.group_files@[i].manually_assigned == false
                            && self.group_files@[i].assigned_at == now);
                    }
                    assert forall|a: int, b: int|
                        0 <= a < b < self.group_files@.len() implies
                        !(self.group_files@[a].hash@ == self.group_files@[b].hash@
                            && self.group_files@[a].group_id@
                                == self.group_files@[b].group_id@) by {
                        if b < gf_before.len() {
                            assert(self.group_files@[a] == gf_before[a]);
                            assert(self.group_files@[b] == gf_before[b]);
                        } else {
                            assert(self.group_files@[a] == gf_before[a]);
                            if self.group_files@[b].group_id@ == self.group_files@[a].group_id@ {
                                if a < old_gf.len() {
                                    assert(old(self).group_files@[a] == old_gf[a]);
                                    assert(has_group_id(old(self).song_groups@,
                                        old(self).group_files@[a].group_id@));
                                    let j = choose|j: int| 0 <= j < old_groups.len()
                                        && old_groups[j].group_id@ == old_gf[a].group_id@;
                                    assert((ids@[g as int])@ != old_groups[j].group_id@);
                                } else {
                                    // an edge of this batch: same id means this group,
                                    // and this group's hashes so far are all distinct
                                    // from the new one
                                    let h2 = choose|h2: int| 0 <= h2 <= g
                                        && gf_before[a].group_id@ == (ids@[h2])@;
                                    if h2 < g {
                                        assert((ids@[h2])@ != (ids@[g as int])@);
                                    }
                                    assert(gf_before[a].group_id@ == (ids@[g as int])@);
                                    let k2 = choose|k2: int| 0 <= k2 < k
                                        && (conf.file_hashes@[k2])@ == gf_before[a].hash@;
                                    assert((conf.file_hashes@[k2])@
                                        != (conf.file_hashes@[k as int])@);
                                }
                            }
                        }
                    }
                    assert forall|i: int| 0 <= i < self.group_files@.len() implies
                        #[trigger] has_file_hash(self.files@, self.group_files@[i].hash@) by {
                        if i < gf_before.len() {
                            assert(has_file_hash(self.files@, gf_before[i].hash@));
                        } else {
                            assert(self.group_files@[i].hash@ == (conf.file_hashes@[k as int])@);
                        }
                    }
                    assert forall|i: int| 0 <= i < self.group_files@.len() implies
                        #[trigger] has_group_id(self.song_groups@,
                            self.group_files@[i].group_id@) by {
                        if i < gf_before.len() {
                            assert(has_group_id(self.song_groups@, gf_before[i].group_id@));
                        } else {
                            assert(self.song_groups@[old_groups.len() + g].group_id@
                                == (ids@[g as int])@);
                        }
                    }
                }
                k = k + 1;
            }
            proof {
                assert forall|i: int| old_gf.len() <= i < self.group_files@.len()
                    && (#[trigger] self.group_files@[i]).group_id@ == (ids@[g as int])@ implies
                    specified_edge(groups@[g as int], self.group_files@[i], now as int) by {
                    let k2 = choose|k2: int| 0 <= k2 < conf.file_hashes@.len()
                        && (conf.file_hashes@[k2])@ == (self.group_files@[i]).hash@;
                    assert(conf.file_hashes.deep_view()[k2] == self.group_files@[i].hash@);
                }
            }
            // ignored-only hashes
            let inn = conf.ignored_hashes.len();
            let mut k: usize = 0;
            while k < inn
                invariant
                    k <= inn,
                    inn == conf.ignored_hashes@.len(),
                    conf == groups@[g as int],
                    g < gn,
                    gn == groups@.len(),
                    ids@.len() == gn,
                    id_ref == ids@[g as int],
                    old(self).wf(),
                    old_groups == old(self).song_groups@,
                    old_gf == old(self).group_files@,
                    forall|h1: int, h2: int| 0 <= h1 < h2 < gn ==>
                        (ids@[h1])@ != (ids@[h2])@,
                    forall|h: int, j2: int| 0 <= h < gn && 0 <= j2 < old_groups.len() ==>
                        (#[trigger] ids@[h])@ != (#[trigger] old_groups[j2]).group_id@,
                    valid_confirmation(self.files@, groups@[g as int]),
                    self.wf(),
                    self.files == old(self).files,
                    self.path_index == old(self).path_index,
                    self.settings == old(self).settings,
                    self.song_groups@.len() == old_groups.len() + g + 1,
                    forall|i: int| 0 <= i < old_groups.len() ==>
                        #[trigger] self.song_groups@[i] == old_groups[i],
                    forall|h: int| 0 <= h <= g ==> ({
                        let row = #[trigger] self.song_groups@[old_groups.len() + h];
                        row.group_id@ == (ids@[h])@
                    }),
                    forall|h: int| 0 <= h < g ==> ({
                        let row = #[trigger] self.song_groups@[old_groups.len() + h];
                        row.canonical_name@ == (groups@[h].canonical_name)@
                        && row.confirmed_at == now && row.is_ignored == false
                    }),
                    ({
                        let row = self.song_groups@[old_groups.len() + g];
                        row.canonical_name@ == (groups@[g as int].canonical_name)@
                        && row.confirmed_at == now && row.is_ignored == false
                    }),
                    forall|i: int| 0 <= i < old_gf.len() ==>
                        #[trigger] self.group_files@[i] == old_gf[i],
                    old_gf.len() <= self.group_files@.len(),
                    forall|h: int, k2: int|
                        0 <= h < g && 0 <= k2 < groups@[h].file_hashes@.len() ==>
                        gf_exists(self.group_files@,
                            (#[trigger] groups@[h].file_hashes@[k2])@,
                            (ids@[h])@,
                            strs_contain(groups@[h].ignored_hashes.deep_view(),
                                (groups@[h].file_hashes@[k2])@),
                            now as int),
                    forall|h: int, k2: int|
                        0 <= h < g && 0 <= k2 < groups@[h].ignored_hashes@.len()
                        && !strs_contain(groups@[h].file_hashes.deep_view(),
                            (groups@[h].ignored_hashes@[k2])@) ==>
                        gf_exists(self.group_files@,
                            (#[trigger] groups@[h].ignored_hashes@[k2])@,
                            (ids@[h])@,
                            true,
                            now as int),
                    forall|k2: int| 0 <= k2 < conf.file_hashes@.len() ==>
                        gf_exists(self.group_files@,
                            (#[trigger] conf.file_hashes@[k2])@,
                            (ids@[g as int])@,
                            strs_contain(conf.ignored_hashes.deep_view(),
                                (conf.file_hashes@[k2])@),
                            now as int),
                    forall|k2: int| 0 <= k2 < k
                        && !strs_contain(conf.file_hashes.deep_view(),
                            (#[trigger] conf.ignored_hashes@[k2])@) ==>
                        gf_exists(self.group_files@,
                            (conf.ignored_hashes@[k2])@,
                            (ids@[g as int])@,
                            true,
                            now as int),
                    forall|i: int| old_gf.len() <= i < self.group_files@.len() ==>
                        (exists|h: int| 0 <= h <= g
                            && (#[trigger] self.group_files@[i]).group_id@ == (ids@[h])@),
                    forall|i: int| old_gf.len() <= i < self.group_files@.len()
                        && (#[trigger] self.group_files@[i]).group_id@ == (ids@[g as int])@ ==>
                        specified_edge(groups@[g as int], self.group_files@[i], now as int),
                    forall|i: int| old_gf.len() <= i < self.group_files@.len()
                        && (#[trigger] self.group_files@[i]).group_id@ != (ids@[g as int])@ ==>
                        (exists|h: int| 0 <= h < g
                            && self.group_files@[i].group_id@ == (ids@[h])@
                            && specified_edge(groups@[h], self.group_files@[i], now as int)),
                decreases inn - k,
            {
                let h = &conf.ignored_hashes[k];
                if !contains_str(&conf.file_hashes, h.as_str()) {
                    // mirror INSERT OR IGNORE: skip when the pair exists already
                    let mut present = false;
                    let rn = self.group_files.len();
                    let mut j: usize = 0;
                    while j < rn
                        invariant
                            j <= rn,
                            rn == self.group_files@.len(),
                            id_ref@ == (ids@[g as int])@,
                            present ==> gf_present(self.group_files@, h@, (ids@[g as int])@),
                            !present ==> (forall|k2: int| 0 <= k2 < j ==>
                                !((#[trigger] self.group_files@[k2]).hash@ == h@
                                    && self.group_files@[k2].group_id@ == (ids@[g as int])@)),
                        decreases rn - j,
                    {
                        let rrow = &self.group_files[j];
                        if str_eq(rrow.hash.as_str(), h.as_str())
                            && str_eq(rrow.group_id.as_str(), id_ref.as_str()) {
                            present = true;
                        }
                        j = j + 1;
                    }
                    if !present {
                        let row = GroupFileRow {
                            hash: h.clone(),
                            group_id: id_ref.clone(),
                            is_ignored: true,
                            manually_assigned: false,
                            assigned_at: now,
                        };
                        let ghost gf_before = self.group_files@;
                        self.group_files.push(row);
                        proof {

                    assert forall|h2: int, k2: int|
                        0 <= h2 < g && 0 <= k2 < groups@[h2].file_hashes@.len() implies
                        gf_exists(self.group_files@,
                            (#[trigger] groups@[h2].file_hashes@[k2])@,
                            (ids@[h2])@,
                            strs_contain(groups@[h2].ignored_hashes.deep_view(),
                                (groups@[h2].file_hashes@[k2])@),
                            now as int) by {
                        lemma_gf_exists_extend(gf_before, self.group_files@,
                            (groups@[h2].file_hashes@[k2])@, (ids@[h2])@,
                            strs_contain(groups@[h2].ignored_hashes.deep_view(),
                                (groups@[h2].file_hashes@[k2])@), now as int);
                    }
                    assert forall|h2: int, k2: int|
                        0 <= h2 < g && 0 <= k2 < groups@[h2].ignored_hashes@.len()
                        && !strs_contain(groups@[h2].file_hashes.deep_view(),
                            (groups@[h2].ignored_hashes@[k2])@) implies
                        gf_exists(self.group_files@,
                            (#[trigger] groups@[h2].ignored_hashes@[k2])@,
                            (ids@[h2])@, true, now as int) by {
                        lemma_gf_exists_extend(gf_before, self.group_files@,
                            (groups@[h2].ignored_hashes@[k2])@, (ids@[h2])@,
                            true, now as int);
                    }

                            assert forall|k2: int| 0 <= k2 < conf.file_hashes@.len() implies
                                gf_exists(self.group_files@,
                                    (#[trigger] conf.file_hashes@[k2])@,
                                    (ids@[g as int])@,
                                    strs_contain(conf.ignored_hashes.deep_view(),
                                        (conf.file_hashes@[k2])@),
                                    now as int) by {
                                lemma_gf_exists_extend(gf_before, self.group_files@,
                                    (conf.file_hashes@[k2])@, (ids@[g as int])@,
                                    strs_contain(conf.ignored_hashes.deep_view(),
                                        (conf.file_hashes@[k2])@), now as int);
                            }
                            assert forall|k2: int| 0 <= k2 < k
                                && !strs_contain(conf.file_hashes.deep_view(),
                                    (#[trigger] conf.ignored_hashes@[k2])@) implies
                                gf_exists(self.group_files@,
                                    (conf.ignored_hashes@[k2])@,
                                    (ids@[g as int])@, true, now as int) by {
                                lemma_gf_exists_extend(gf_before, self.group_files@,
                                    (conf.ignored_hashes@[k2])@, (ids@[g as int])@,
                                    true, now as int);
                            }
                            assert(gf_exists(self.group_files@,
                                (conf.ignored_hashes@[k as int])@,
                                (ids@[g as int])@, true, now as int)) by {
                                let i = gf_before.len() as int;
                                assert(self.group_files@[i].hash@ == h@
                                    && self.group_files@[i].group_id@ == (ids@[g as int])@
                                    && self.group_files@[i].is_ignored == true
                                    && self.group_files@[i].manually_assigned == false
                                    && self.group_files@[i].assigned_at == now);
                            }
                            assert(conf.ignored_hashes.deep_view()[k as int] == h@);
                            assert(specified_edge(groups@[g as int],
                                self.group_files@[gf_before.len() as int], now as int));
                            assert forall|a: int, b: int|
                                0 <= a < b < self.group_files@.len() implies
                                !(self.group_files@[a].hash@ == self.group_files@[b].hash@
                                    && self.group_files@[a].group_id@
                                        == self.group_files@[b].group_id@) by {
                                if b < gf_before.len() {
                                    assert(self.group_files@[a] == gf_before[a]);
                                    assert(self.group_files@[b] == gf_before[b]);
                                } else {
                                    assert(self.group_files@[a] == gf_before[a]);
                                    assert(self.group_files@[b].hash@ == h@);
                                    assert(self.group_files@[b].group_id@
                                        == (ids@[g as int])@);
                                    if gf_before[a].hash@ == h@
                                        && gf_before[a].group_id@ == (ids@[g as int])@ {
                                        assert(gf_present(gf_before, h@, (ids@[g as int])@))
                                            by {
                                            assert(gf_before[a].hash@ == h@
                                                && gf_before[a].group_id@
                                                    == (ids@[g as int])@);
                                        }
                                        assert(false);
                                    }
                                }
                            }
                            assert forall|i: int| 0 <= i < self.group_files@.len() implies
                                #[trigger] has_file_hash(self.files@,
                                    self.group_files@[i].hash@) by {
                                if i < gf_before.len() {
                                    assert(has_file_hash(self.files@, gf_before[i].hash@));
                                } else {
                                    assert(self.group_files@[i].hash@
                                        == (conf.ignored_hashes@[k as int])@);
                                }
                            }
                            assert forall|i: int| 0 <= i < self.group_files@.len() implies
                                #[trigger] has_group_id(self.song_groups@,
                                    self.group_files@[i].group_id@) by {
                                if i < gf_before.len() {
                                    assert(has_group_id(self.song_groups@,
                                        gf_before[i].group_id@));
                                } else {
                                    assert(self.song_groups@[old_groups.len() + g].group_id@
                                        == (ids@[g as int])@);
                                }
                            }
                        }
                    } else {
                        proof {
                            // the pair already stands: it can only be an
                            // ignored-only edge of this very group (the id is
                            // fresh and this hash is not a file hash), so its
                            // fields are already the ones asked for
                            let i = choose|i: int| 0 <= i < self.group_files@.len()
                                && self.group_files@[i].hash@ == h@
                                && self.group_files@[i].group_id@ == (ids@[g as int])@;
                            if i < old_gf.len() {
                                assert(old(self).group_files@[i] == old_gf[i]);
                                assert(has_group_id(old(self).song_groups@,
                                    old(self).group_files@[i].group_id@));
                                let j = choose|j: int| 0 <= j < old_groups.len()
                                    && old_groups[j].group_id@ == old_gf[i].group_id@;
                                assert((ids@[g as int])@ != old_groups[j].group_id@);
                            }
                            assert(self.group_files@[i].is_ignored == true
                                && self.group_files@[i].manually_assigned == false
                                && self.group_files@[i].assigned_at == now);
                            assert(gf_exists(self.group_files@, h@, (ids@[g as int])@,
                                true, now as int));
                        }
                    }
                }
                k = k + 1;
            }
            proof {
                assert forall|i: int| old_gf.len() <= i < self.group_files@.len() implies
                    (exists|h: int| 0 <= h < g + 1
                        && (#[trigger] self.group_files@[i]).group_id@ == (ids@[h])@
                        && specified_edge(groups@[h], self.group_files@[i],
                            now as int)) by {
                    if self.group_files@[i].group_id@ == (ids@[g as int])@ {
                        assert(specified_edge(groups@[g as int], self.group_files@[i],
                            now as int));
                    } else {
                        let h = choose|h: int| 0 <= h < g
                            && self.group_files@[i].group_id@ == (ids@[h])@
                            && specified_edge(groups@[h], self.group_files@[i],
                                now as int);
                    }
                }
            }
            g = g + 1;
        }
        proof {
            assert forall|i: int|
                old(self).group_files@.len() <= i < self.group_files@.len() implies
                edge_of_batch(groups@, old(self).song_groups@.len() as int,
                    self.song_groups@,
                    #[trigger] self.group_files@[i], now as int) by {
                let h = choose|h: int| 0 <= h < gn
                    && self.group_files@[i].group_id@ == (ids@[h])@
                    && specified_edge(groups@[h], self.group_files@[i], now as int);
                assert(self.song_groups@[old_groups.len() + h].group_id@ == (ids@[h])@);
                assert(0 <= h < groups@.len()
                    && self.group_files@[i].group_id@
                        == self.song_groups@[
                            old(self).song_groups@.len() + h].group_id@
                    && specified_edge(groups@[h], self.group_files@[i], now as int));
            }
        }
        Ok(())
    }
}


proof fn lemma_gf_exists_extend(
    rows: Seq<GroupFileRow>,
    grown: Seq<GroupFileRow>,
    h: Seq<char>,
    gid: Seq<char>,
    ign: bool,
    now: int,
)
    requires
        gf_exists(rows, h, gid, ign, now),
        rows.len() <= grown.len(),
        forall|i: int| 0 <= i < rows.len() ==> #[trigger] grown[i] == rows[i],
    ensures
        gf_exists(grown, h, gid, ign, now),
{
    let i = choose|i: int| 0 <= i < rows.len() && rows[i].hash@ == h
        && rows[i].group_id@ == gid && rows[i].is_ignored == ign
        && rows[i].manually_assigned == false && rows[i].assigned_at == now;
    assert(grown[i] == rows[i]);
}

/// A `(hash, group)` pair occurs among the rows.
pub open spec fn gf_present(rows: Seq<GroupFileRow>, h: Seq<char>, gid: Seq<char>) -> bool {
    exists|i: int| 0 <= i < rows.len() && rows[i].hash@ == h && rows[i].group_id@ == gid
}

/// Whether some element of `v` equals `h`.
pub fn contains_str(v: &Vec<String>, h: &str) -> (r: bool)
    ensures
        r == strs_contain(v.deep_view(), h@),
{
    let n = v.len();
    let mut i: usize = 0;
    while i < n
        invariant
            i <= n,
            n == v@.len(),
            forall|k: int| 0 <= k < i ==> (#[trigger] v@[k])@ != h@,
        decreases n - i,
    {
        if str_eq(v[i].as_str(), h) {
            assert(v.deep_view()[i as int] == h@);
            return true;
        }
        i = i + 1;
    }
    assert forall|k: int| 0 <= k < v.deep_view().len() implies
        #[trigger] v.deep_view()[k] != h@ by {
        assert((v@[k])@ != h@);
    }
    false
}

/// Some element of `xs` views to `s`.
pub open spec fn strings_hold(xs: Seq<String>, s: Seq<char>) -> bool {
    exists|a: int| 0 <= a < xs.len() && (xs[a])@ == s
}

/// Reorders pairwise-distinct strings ascending in the code-point order;
/// the result holds exactly the same values.
#[verifier::rlimit(100)]
#[verifier::spinoff_prover]
fn sort_strings(v: Vec<String>) -> (r: Vec<String>)
    requires
        forall|k1: int, k2: int| 0 <= k1 < k2 < v@.len() ==> (v@[k1])@ != (v@[k2])@,
    ensures
        r@.len() == v@.len(),
        forall|a: int, b: int| 0 <= a < b < r@.len() ==>
            crate::text::lex_lt((#[trigger] r@[a])@, (#[trigger] r@[b])@),
        forall|k: int| 0 <= k < v@.len() ==> #[trigger] strings_hold(r@, (v@[k])@),
        forall|a: int| 0 <= a < r@.len() ==> #[trigger] strings_hold(v@, (r@[a])@),
{
    let n = v.len();
    let mut r: Vec<String> = Vec::new();
    let mut i: usize = 0;
    while i < n
        invariant
            i <= n,
            n == v@.len(),
            r@.len() == i,
            forall|k1: int, k2: int| 0 <= k1 < k2 < v@.len() ==> (v@[k1])@ != (v@[k2])@,
            forall|a: int, b: int| 0 <= a < b < r@.len() ==>
                crate::text::lex_lt((#[trigger] r@[a])@, (#[trigger] r@[b])@),
            forall|k: int| 0 <= k < i ==> #[trigger] strings_hold(r@, (v@[k])@),
            forall|a: int| 0 <= a < r@.len() ==>
                (exists|k: int| 0 <= k < i && ((#[trigger] r@[a])@ == (v@[k])@)),
        decreases n - i,
    {
        let x = v[i].clone();
        let m = r.len();
        let mut p: usize = 0;
        while p < m && crate::text::str_lt(r[p].as_str(), x.as_str())
            invariant
                p <= m,
                m == r@.len(),
                x@ == (v@[i as int])@,
                forall|a: int| 0 <= a < p ==>
                    crate::text::lex_lt((#[trigger] r@[a])@, x@),
            decreases m - p,
        {
            p = p + 1;
        }
        let ghost oldr = r@;
        let ghost xg = x;
        proof {
            // the new string differs from every one inserted so far
            assert forall|a: int| 0 <= a < oldr.len() implies
                (#[trigger] oldr[a])@ != xg@ by {
                let k2 = choose|k2: int| 0 <= k2 < i && ((oldr[a])@ == (v@[k2])@);
                assert((v@[k2])@ != (v@[i as int])@);
            }
            // everything from the split point on sorts strictly after it
            assert forall|a: int| p <= a < oldr.len() implies
                crate::text::lex_lt(xg@, (#[trigger] oldr[a])@) by {
                assert(!crate::text::lex_lt((oldr[p as int])@, xg@));
                crate::text::lemma_lex_total(xg@, (oldr[p as int])@);
                assert((oldr[p as int])@ != xg@);
                assert(crate::text::lex_lt(xg@, (oldr[p as int])@));
                if a > p as int {
                    crate::text::lemma_lex_trans(xg@, (oldr[p as int])@, (oldr[a])@);
                    assert((oldr[a])@ != xg@);
                }
            }
        }
        r.insert(p, x);
        proof {
            assert(r@ =~= oldr.insert(p as int, xg));
            assert forall|a: int, b: int| 0 <= a < b < r@.len() implies
                crate::text::lex_lt((#[trigger] r@[a])@, (#[trigger] r@[b])@) by {
                let va = if a < p as int { oldr[a] } else if a == p as int { xg }
                    else { oldr[a - 1] };
                let vb = if b < p as int { oldr[b] } else if b == p as int { xg }
                    else { oldr[b - 1] };
                assert(r@[a] == va && r@[b] == vb);
                if b == p as int {
                    assert(crate::text::lex_lt((oldr[a])@, xg@));
                } else if a == p as int {
                    assert(crate::text::lex_lt(xg@, (oldr[b - 1])@));
                }
            }
            assert forall|k: int| 0 <= k < i + 1 implies
                #[trigger] strings_hold(r@, (v@[k])@) by {
                if k < i {
                    assert(strings_hold(oldr, (v@[k])@));
                    let a0 = choose|a0: int| 0 <= a0 < oldr.len()
                        && ((oldr[a0])@ == (v@[k])@);
                    if a0 < p as int {
                        assert(r@[a0] == oldr[a0]);
                        assert((r@[a0])@ == (v@[k])@);
                    } else {
                        assert(r@[a0 + 1] == oldr[a0]);
                        assert((r@[a0 + 1])@ == (v@[k])@);
                    }
                } else {
                    assert(r@[p as int] == xg);
                    assert((r@[p as int])@ == (v@[k])@);
                }
            }
            assert forall|a: int| 0 <= a < r@.len() implies
                (exists|k: int| 0 <= k < i + 1 && ((#[trigger] r@[a])@ == (v@[k])@)) by {
                if a < p as int {
                    assert(r@[a] == oldr[a]);
                    let k0 = choose|k0: int| 0 <= k0 < i && ((oldr[a])@ == (v@[k0])@);
                    assert((r@[a])@ == (v@[k0])@);
                } else if a == p as int {
                    assert((r@[a])@ == (v@[i as int])@);
                } else {
                    assert(r@[a] == oldr[a - 1]);
                    let k0 = choose|k0: int| 0 <= k0 < i && ((oldr[a - 1])@ == (v@[k0])@);
                    assert((r@[a])@ == (v@[k0])@);
                }
            }
        }
        i = i + 1;
    }
    proof {
        assert forall|a: int| 0 <= a < r@.len() implies
            #[trigger] strings_hold(v@, (r@[a])@) by {
            let k0 = choose|k0: int| 0 <= k0 < i && ((r@[a])@ == (v@[k0])@);
            assert(0 <= k0 < v@.len() && (v@[k0])@ == (r@[a])@);
        }
    }
    r
}



impl StoreModel {
    /// Whether some stored group carries this identifier.
    pub fn group_id_known(&self, id: &str) -> (r: bool)
        ensures
            r == has_group_id(self.song_groups@, id@),
    {
        let n = self.song_groups.len();
        let mut i: usize = 0;
        while i < n
            invariant
                i <= n,
                n == self.song_groups@.len(),
                forall|k: int| 0 <= k < i ==>
                    (#[trigger] self.song_groups@[k]).group_id@ != id@,
            decreases n - i,
        {
            if str_eq(self.song_groups[i].group_id.as_str(), id) {
                return true;
            }
            i = i + 1;
        }
        false
    }

    /// An executable check of the store invariants, for state that was
    /// loaded from outside the library rather than built through it.
    pub fn check_wf(&self) -> (r: bool)
        ensures
            r == self.wf(),
    {
        let nf = self.files.len();
        let mut a: usize = 0;
        while a < nf
            invariant
                a <= nf,
                nf == self.files@.len(),
                forall|i: int, j: int| 0 <= i < j < nf && i < a ==>
                    self.files@[i].hash@ != self.files@[j].hash@,
            decreases nf - a,
        {
            let mut b: usize = a + 1;
            while b < nf
                invariant
                    a < b <= nf,
                    nf == self.files@.len(),
                    forall|j: int| (a as int) < j < b ==>
                        self.files@[a as int].hash@ != (#[trigger] self.files@[j]).hash@,
                decreases nf - b,
            {
                if str_eq(self.files[a].hash.as_str(), self.files[b].hash.as_str()) {
                    return false;
                }
                b = b + 1;
            }
            a = a + 1;
        }

        let np = self.path_index.len();
        let mut a: usize = 0;
        while a < np
            invariant
                a <= np,
                np == self.path_index@.len(),
                forall|i: int, j: int| 0 <= i < j < np && i < a ==>
                    self.path_index@[i].path@ != self.path_index@[j].path@,
            decreases np - a,
        {
            let mut b: usize = a + 1;
            while b < np
                invariant
                    a < b <= np,
                    np == self.path_index@.len(),
                    forall|j: int| (a as int) < j < b ==>
                        self.path_index@[a as int].path@
                            != (#[trigger] self.path_index@[j]).path@,
                decreases np - b,
            {
                if str_eq(self.path_index[a].path.as_str(), self.path_index[b].path.as_str()) {
                    return false;
                }
                b = b + 1;
            }
            a = a + 1;
        }

        let mut a: usize = 0;
        while a < np
            invariant
                a <= np,
                np == self.path_index@.len(),
                forall|i: int| 0 <= i < a ==>
                    #[trigger] has_file_hash(self.files@, self.path_index@[i].hash@),
            decreases np - a,
        {
            if !self.hash_in_cache(self.path_index[a].hash.as_str()) {
                return false;
            }
            a = a + 1;
        }

        let ns = self.settings.len();
        let mut a: usize = 0;
        while a < ns
            invariant
                a <= ns,
                ns == self.settings@.len(),
                forall|i: int, j: int| 0 <= i < j < ns && i < a ==>
                    self.settings@[i].key@ != self.settings@[j].key@,
            decreases ns - a,
        {
            let mut b: usize = a + 1;
            while b < ns
                invariant
                    a < b <= ns,
                    ns == self.settings@.len(),
                    forall|j: int| (a as int) < j < b ==>
                        self.settings@[a as int].key@ != (#[trigger] self.settings@[j]).key@,
                decreases ns - b,
            {
                if str_eq(self.settings[a].key.as_str(), self.settings[b].key.as_str()) {
                    return false;
                }
                b = b + 1;
            }
            a = a + 1;
        }

        let ng = self.song_groups.len();
        let mut a: usize = 0;
        while a < ng
            invariant
                a <= ng,
                ng == self.song_groups@.len(),
                forall|i: int, j: int| 0 <= i < j < ng && i < a ==>
                    self.song_groups@[i].group_id@ != self.song_groups@[j].group_id@,
            decreases ng - a,
        {
            let mut b: usize = a + 1;
            while b < ng
                invariant
                    a < b <= ng,
                    ng == self.song_groups@.len(),
                    forall|j: int| (a as int) < j < b ==>
                        self.song_groups@[a as int].group_id@
                            != (#[trigger] self.song_groups@[j]).group_id@,
                decreases ng - b,
            {
                if str_eq(self.song_groups[a].group_id.as_str(),
                    self.song_groups[b].group_id.as_str()) {
                    return false;
                }
                b = b + 1;
            }
            a = a + 1;
        }

        let ne = self.group_files.len();
        let mut a: usize = 0;
        while a < ne
            invariant
                a <= ne,
                ne == self.group_files@.len(),
                forall|i: int, j: int| 0 <= i < j < ne && i < a ==>
                    !(self.group_files@[i].hash@ == self.group_files@[j].hash@
                        && self.group_files@[i].group_id@ == self.group_files@[j].group_id@),
            decreases ne - a,
        {
            let mut b: usize = a + 1;
            while b < ne
                invariant
                    a < b <= ne,
                    ne == self.group_files@.len(),
                    forall|j: int| (a as int) < j < b ==>
                        !(self.group_files@[a as int].hash@
                            == (#[trigger] self.group_files@[j]).hash@
                            && self.group_files@[a as int].group_id@
                                == self.group_files@[j].group_id@),
                decreases ne - b,
            {
                if str_eq(self.group_files[a].hash.as_str(),
                    self.group_files[b].hash.as_str())
                    && str_eq(self.group_files[a].group_id.as_str(),
                        self.group_files[b].group_id.as_str()) {
                    return false;
                }
                b = b + 1;
            }
            a = a + 1;
        }

        let mut a: usize = 0;
        while a < ne
            invariant
                a <= ne,
                ne == self.group_files@.len(),
                forall|i: int| 0 <= i < a ==>
                    #[trigger] has_file_hash(self.files@, self.group_files@[i].hash@),
                forall|i: int| 0 <= i < a ==>
                    #[trigger] has_group_id(self.song_groups@,
                        self.group_files@[i].group_id@),
            decreases ne - a,
        {
            if !self.hash_in_cache(self.group_files[a].hash.as_str()) {
                return false;
            }
            if !self.group_id_known(self.group_files[a].group_id.as_str()) {
                return false;
            }
            a = a + 1;
        }

        true
    }
}

/// Order of listed groups: by canonical name, then by identifier.
pub open spec fn group_key_le(a: GroupRow, b: GroupRow) -> bool {
    crate::text::lex_lt(a.canonical_name@, b.canonical_name@)
    || (a.canonical_name@ == b.canonical_name@
        && crate::text::lex_le(a.group_id@, b.group_id@))
}

proof fn lemma_key_total(a: GroupRow, b: GroupRow)
    ensures
        group_key_le(a, b) || group_key_le(b, a),
{
    crate::text::lemma_lex_total(a.canonical_name@, b.canonical_name@);
    crate::text::lemma_lex_total(a.group_id@, b.group_id@);
}

proof fn lemma_key_trans(a: GroupRow, b: GroupRow, c: GroupRow)
    requires
        group_key_le(a, b),
        group_key_le(b, c),
    ensures
        group_key_le(a, c),
{
    let an = a.canonical_name@;
    let bn = b.canonical_name@;
    let cn = c.canonical_name@;
    crate::text::lemma_lex_asym(an, bn);
    crate::text::lemma_lex_asym(bn, cn);
    crate::text::lemma_lex_asym(an, cn);
    if an == bn && bn == cn {
        crate::text::lemma_lex_trans(a.group_id@, b.group_id@, c.group_id@);
    } else if an == bn {
    } else if bn == cn {
    } else {
        crate::text::lemma_lex_trans(an, bn, cn);
    }
}

/// Some stored group carries this identifier and name.
pub open spec fn group_named(gs: Seq<GroupRow>, gid: Seq<char>, name: Seq<char>) -> bool {
    exists|i: int| 0 <= i < gs.len() && gs[i].group_id@ == gid && gs[i].canonical_name@ == name
}

/// Some group-file row assigns `gid`.
pub open spec fn group_has_rows(rows: Seq<GroupFileRow>, gid: Seq<char>) -> bool {
    exists|i: int| 0 <= i < rows.len() && rows[i].group_id@ == gid
}

/// Some listed entry carries this identifier.
pub open spec fn entry_with_gid(es: Seq<ConfirmedGroup>, gid: Seq<char>) -> bool {
    exists|i: int| 0 <= i < es.len() && es[i].group_id@ == gid
}

impl StoreModel {
    /// The confirmed groups with their member hashes, ordered by canonical
    /// name and identifier; a group without a single assignment does not
    /// appear (the listing joins the two tables).  Hashes come back
    /// ascending in the code-point order within each group, split by their
    /// ignored flag.
    #[verifier::rlimit(100)]
    #[verifier::spinoff_prover]
    pub fn list_confirmed_groups(&self) -> (r: Vec<ConfirmedGroup>)
        requires
            self.wf(),
        ensures
            forall|i: int, j: int| 0 <= i < j < r@.len() ==> ({
                let a = #[trigger] r@[i];
                let b = #[trigger] r@[j];
                crate::text::lex_lt(a.canonical_name@, b.canonical_name@)
                || (a.canonical_name@ == b.canonical_name@
                    && crate::text::lex_le(a.group_id@, b.group_id@))
            }),
            forall|i: int| 0 <= i < r@.len() ==> ({
                let e = #[trigger] r@[i];
                group_named(self.song_groups@, e.group_id@, e.canonical_name@)
                && (forall|k: int| 0 <= k < e.file_hashes@.len() ==>
                    gf_member(self.group_files@, (#[trigger] e.file_hashes@[k])@,
                        e.group_id@, false))
                && (forall|k: int| 0 <= k < e.ignored_hashes@.len() ==>
                    gf_member(self.group_files@, (#[trigger] e.ignored_hashes@[k])@,
                        e.group_id@, true))
                && (forall|k: int| 0 <= k < self.group_files@.len()
                    && (#[trigger] self.group_files@[k]).group_id@ == e.group_id@ ==>
                    (if self.group_files@[k].is_ignored {
                        strs_contain(e.ignored_hashes.deep_view(),
                            self.group_files@[k].hash@)
                    } else {
                        strs_contain(e.file_hashes.deep_view(),
                            self.group_files@[k].hash@)
                    }))
            }),
            forall|i: int| 0 <= i < self.song_groups@.len()
                && group_has_rows(self.group_files@, (#[trigger] self.song_groups@[i]).group_id@)
                ==> entry_with_gid(r@, self.song_groups@[i].group_id@),
            forall|i: int, j: int| 0 <= i < j < r@.len() ==>
                (#[trigger] r@[i]).group_id@ != (#[trigger] r@[j]).group_id@,
            forall|i: int| 0 <= i < r@.len() ==> ({
                let e = #[trigger] r@[i];
                (forall|k1: int, k2: int| 0 <= k1 < k2 < e.file_hashes@.len() ==>
                    (e.file_hashes@[k1])@ != (e.file_hashes@[k2])@)
                && (forall|k1: int, k2: int| 0 <= k1 < k2 < e.ignored_hashes@.len() ==>
                    (e.ignored_hashes@[k1])@ != (e.ignored_hashes@[k2])@)
            }),
            // within a group the hashes come back ascending
            forall|i: int| 0 <= i < r@.len() ==> ({
                let e = #[trigger] r@[i];
                (forall|k1: int, k2: int| 0 <= k1 < k2 < e.file_hashes@.len() ==>
                    crate::text::lex_lt((e.file_hashes@[k1])@, (e.file_hashes@[k2])@))
                && (forall|k1: int, k2: int| 0 <= k1 < k2 < e.ignored_hashes@.len() ==>
                    crate::text::lex_lt((e.ignored_hashes@[k1])@, (e.ignored_hashes@[k2])@))
            }),
    {
        let sn = self.song_groups.len();
        // group indices, ordered by (name, id)
        let mut order: Vec<usize> = Vec::new();
        let mut i: usize = 0;
        while i < sn
            invariant
                i <= sn,
                sn == self.song_groups@.len(),
                order@.len() == i,
                forall|a: int| 0 <= a < order@.len() ==> #[trigger] order@[a] < sn,
                forall|a: int| 0 <= a < order@.len() ==> #[trigger] order@[a] < i,
                forall|a1: int, a2: int| 0 <= a1 < a2 < order@.len() ==>
                    order@[a1] != order@[a2],
                forall|a: int, b: int| 0 <= a < b < order@.len() ==>
                    group_key_le(self.song_groups@[order@[a] as int],
                        self.song_groups@[order@[b] as int]),
                forall|j: int| 0 <= j < i ==> idx_in(order@, j),
            decreases sn - i,
        {
            let row = &self.song_groups[i];
            let m = order.len();
            let mut p: usize = 0;
            while p < m && group_le_exec(&self.song_groups[order[p]], row)
                invariant
                    p <= m,
                    m == order@.len(),
                    i < sn,
                    sn == self.song_groups@.len(),
                    row == self.song_groups@[i as int],
                    forall|a: int| 0 <= a < order@.len() ==> #[trigger] order@[a] < sn,
                    forall|a: int| 0 <= a < p ==>
                        group_key_le(self.song_groups@[#[trigger] order@[a] as int],
                            self.song_groups@[i as int]),
                decreases m - p,
            {
                p = p + 1;
            }
            let ghost oldord = order@;
            order.insert(p, i);
            proof {
                assert(order@ =~= oldord.insert(p as int, i));
                if p < oldord.len() {
                    lemma_key_total(self.song_groups@[oldord[p as int] as int],
                        self.song_groups@[i as int]);
                }
                assert forall|a: int, b: int| 0 <= a < b < order@.len() implies
                    group_key_le(self.song_groups@[order@[a] as int],
                        self.song_groups@[order@[b] as int]) by {
                    let ra = if a < p as int { oldord[a] } else if a == p as int { i as usize }
                        else { oldord[a - 1] };
                    let rb = if b < p as int { oldord[b] } else if b == p as int { i as usize }
                        else { oldord[b - 1] };
                    assert(order@[a] == ra && order@[b] == rb);
                    if b == p as int {
                        assert(group_key_le(self.song_groups@[oldord[a] as int],
                            self.song_groups@[i as int]));
                    } else if a == p as int {
                        let rowb = self.song_groups@[oldord[b - 1] as int];
                        if (p as int) < b - 1 {
                            lemma_key_trans(self.song_groups@[oldord[p as int] as int],
                                rowb, rowb);
                        }
                        lemma_key_total(self.song_groups@[i as int], rowb);
                        if b - 1 > p as int {
                            lemma_key_trans(self.song_groups@[i as int],
                                self.song_groups@[oldord[p as int] as int], rowb);
                        }
                    }
                }
                assert forall|a: int| 0 <= a < order@.len() implies
                    #[trigger] order@[a] < i + 1 by {
                    if a < p as int {
                        assert(order@[a] == oldord[a]);
                    } else if a == p as int {
                        assert(order@[a] == i as usize);
                    } else {
                        assert(order@[a] == oldord[a - 1]);
                    }
                }
                assert forall|a1: int, a2: int| 0 <= a1 < a2 < order@.len() implies
                    order@[a1] != order@[a2] by {
                    let v1 = if a1 < p as int { oldord[a1] }
                        else if a1 == p as int { i as usize } else { oldord[a1 - 1] };
                    let v2 = if a2 < p as int { oldord[a2] }
                        else if a2 == p as int { i as usize } else { oldord[a2 - 1] };
                    assert(order@[a1] == v1 && order@[a2] == v2);
                }
                assert forall|j: int| 0 <= j < i + 1 implies idx_in(order@, j) by {
                    if j < i {
                        assert(idx_in(oldord, j));
                        let a = choose|a: int| 0 <= a < oldord.len() && oldord[a] == j;
                        if a < p as int {
                            assert(order@[a] == oldord[a]);
                        } else {
                            assert(order@[a + 1] == oldord[a]);
                        }
                    } else {
                        assert(order@[p as int] == i as usize);
                    }
                }
            }
            i = i + 1;
        }

        // build the entries in sorted order
        let mut r: Vec<ConfirmedGroup> = Vec::new();
        let on = order.len();
        let mut oi: usize = 0;
        while oi < on
            invariant
                oi <= on,
                on == order@.len(),
                sn == self.song_groups@.len(),
                self.wf(),
                forall|a: int| 0 <= a < order@.len() ==> #[trigger] order@[a] < sn,
                forall|a1: int, a2: int| 0 <= a1 < a2 < order@.len() ==>
                    order@[a1] != order@[a2],
                forall|a: int, b: int| 0 <= a < b < order@.len() ==>
                    group_key_le(self.song_groups@[order@[a] as int],
                        self.song_groups@[order@[b] as int]),
                forall|j: int| 0 <= j < sn ==> idx_in(order@, j),
                forall|i2: int, j2: int| 0 <= i2 < j2 < r@.len() ==>
                    (#[trigger] r@[i2]).group_id@ != (#[trigger] r@[j2]).group_id@,
                // entries so far: one per already-seen group that has rows
                forall|i2: int, j2: int| 0 <= i2 < j2 < r@.len() ==> ({
                    let a = #[trigger] r@[i2];
                    let b = #[trigger] r@[j2];
                    crate::text::lex_lt(a.canonical_name@, b.canonical_name@)
                    || (a.canonical_name@ == b.canonical_name@
                        && crate::text::lex_le(a.group_id@, b.group_id@))
                }),
                forall|i2: int| 0 <= i2 < r@.len() ==> ({
                    let e = #[trigger] r@[i2];
                    group_named(self.song_groups@, e.group_id@, e.canonical_name@)
                    && (forall|k: int| 0 <= k < e.file_hashes@.len() ==>
                        gf_member(self.group_files@, (#[trigger] e.file_hashes@[k])@,
                            e.group_id@, false))
                    && (forall|k: int| 0 <= k < e.ignored_hashes@.len() ==>
                        gf_member(self.group_files@, (#[trigger] e.ignored_hashes@[k])@,
                            e.group_id@, true))
                    && (forall|k: int| 0 <= k < self.group_files@.len()
                        && (#[trigger] self.group_files@[k]).group_id@ == e.group_id@ ==>
                        (if self.group_files@[k].is_ignored {
                            strs_contain(e.ignored_hashes.deep_view(),
                                self.group_files@[k].hash@)
                        } else {
                            strs_contain(e.file_hashes.deep_view(),
                                self.group_files@[k].hash@)
                        }))
                    && (forall|k1: int, k2: int| 0 <= k1 < k2 < e.file_hashes@.len() ==>
                        (e.file_hashes@[k1])@ != (e.file_hashes@[k2])@)
                    && (forall|k1: int, k2: int| 0 <= k1 < k2 < e.ignored_hashes@.len() ==>
                        (e.ignored_hashes@[k1])@ != (e.ignored_hashes@[k2])@)
                    && (forall|k1: int, k2: int| 0 <= k1 < k2 < e.file_hashes@.len() ==>
                        crate::text::lex_lt((e.file_hashes@[k1])@, (e.file_hashes@[k2])@))
                    && (forall|k1: int, k2: int| 0 <= k1 < k2 < e.ignored_hashes@.len() ==>
                        crate::text::lex_lt((e.ignored_hashes@[k1])@,
                            (e.ignored_hashes@[k2])@))
                }),
                // an entry exists exactly for the seen groups with rows
                forall|a: int| 0 <= a < oi
                    && group_has_rows(self.group_files@,
                        (#[trigger] self.song_groups@[order@[a] as int]).group_id@) ==>
                    entry_with_gid(r@, self.song_groups@[order@[a] as int].group_id@),
                r@.len() <= oi,
                // entries come from seen groups, keeping the order argument simple
                forall|i2: int| 0 <= i2 < r@.len() ==>
                    (exists|a: int| 0 <= a < oi
                        && (#[trigger] r@[i2]).group_id@
                            == self.song_groups@[order@[a] as int].group_id@
                        && r@[i2].canonical_name@
                            == self.song_groups@[order@[a] as int].canonical_name@
                        && i2 <= a),
            decreases on - oi,
        {
            let gi = order[oi];
            let grow = &self.song_groups[gi];
            let mut fh: Vec<String> = Vec::new();
            let mut ih: Vec<String> = Vec::new();
            let rn = self.group_files.len();
            let mut j: usize = 0;
            while j < rn
                invariant
                    j <= rn,
                    rn == self.group_files@.len(),
                    self.wf(),
                    gi < sn,
                    sn == self.song_groups@.len(),
                    grow == self.song_groups@[gi as int],
                    forall|k: int| 0 <= k < fh@.len() ==>
                        gf_member(self.group_files@, (#[trigger] fh@[k])@, grow.group_id@,
                            false),
                    forall|k: int| 0 <= k < ih@.len() ==>
                        gf_member(self.group_files@, (#[trigger] ih@[k])@, grow.group_id@,
                            true),
                    forall|k: int| 0 <= k < fh@.len() ==>
                        gf_member_upto(self.group_files@, j as int, (#[trigger] fh@[k])@,
                            grow.group_id@, false),
                    forall|k: int| 0 <= k < ih@.len() ==>
                        gf_member_upto(self.group_files@, j as int, (#[trigger] ih@[k])@,
                            grow.group_id@, true),
                    forall|k1: int, k2: int| 0 <= k1 < k2 < fh@.len() ==>
                        (fh@[k1])@ != (fh@[k2])@,
                    forall|k1: int, k2: int| 0 <= k1 < k2 < ih@.len() ==>
                        (ih@[k1])@ != (ih@[k2])@,
                    forall|k: int| 0 <= k < j
                        && (#[trigger] self.group_files@[k]).group_id@ == grow.group_id@ ==>
                        (if self.group_files@[k].is_ignored {
                            strs_contain(ih.deep_view(), self.group_files@[k].hash@)
                        } else {
                            strs_contain(fh.deep_view(), self.group_files@[k].hash@)
                        }),
                    fh@.len() + ih@.len() <= j,
                decreases rn - j,
            {
                let rrow = &self.group_files[j];
                if str_eq(rrow.group_id.as_str(), grow.group_id.as_str()) {
                    if rrow.is_ignored {
                        let ghost ihv = ih.deep_view();
                        ih.push(rrow.hash.clone());
                        proof {
                            assert(ih.deep_view() =~= ihv.push(
                                self.group_files@[j as int].hash@));
                            assert(ih.deep_view()[ihv.len() as int]
                                == self.group_files@[j as int].hash@);
                            assert forall|k: int| 0 <= k < ih@.len() implies
                                gf_member(self.group_files@, (#[trigger] ih@[k])@,
                                    grow.group_id@, true) by {
                                if k < ihv.len() {
                                } else {
                                    assert((ih@[k])@ == self.group_files@[j as int].hash@);
                                    assert(self.group_files@[j as int].group_id@
                                        == grow.group_id@);
                                }
                            }
                            assert forall|k: int| 0 <= k < ih@.len() implies
                                gf_member_upto(self.group_files@, j + 1,
                                    (#[trigger] ih@[k])@, grow.group_id@, true) by {
                                if k < ihv.len() {
                                    let w = choose|w: int| 0 <= w < j
                                        && w < self.group_files@.len()
                                        && self.group_files@[w].hash@ == (ih@[k])@
                                        && self.group_files@[w].group_id@ == grow.group_id@
                                        && self.group_files@[w].is_ignored == true;
                                    assert(0 <= w < j + 1);
                                } else {
                                    assert(self.group_files@[j as int].hash@ == (ih@[k])@);
                                }
                            }
                            assert forall|k1: int, k2: int|
                                0 <= k1 < k2 < ih@.len() implies
                                (ih@[k1])@ != (ih@[k2])@ by {
                                if k2 == ihv.len() && (ih@[k1])@ == (ih@[k2])@ {
                                    let w = choose|w: int| 0 <= w < j
                                        && w < self.group_files@.len()
                                        && self.group_files@[w].hash@ == (ih@[k1])@
                                        && self.group_files@[w].group_id@ == grow.group_id@
                                        && self.group_files@[w].is_ignored == true;
                                    assert(!(self.group_files@[w].hash@
                                        == self.group_files@[j as int].hash@
                                        && self.group_files@[w].group_id@
                                            == self.group_files@[j as int].group_id@));
                                }
                            }
                            assert forall|k: int| 0 <= k < j + 1
                                && (#[trigger] self.group_files@[k]).group_id@
                                    == grow.group_id@ implies
                                (if self.group_files@[k].is_ignored {
                                    strs_contain(ih.deep_view(), self.group_files@[k].hash@)
                                } else {
                                    strs_contain(fh.deep_view(), self.group_files@[k].hash@)
                                }) by {
                                if k < j && self.group_files@[k].is_ignored {
                                    let x = choose|x: int| 0 <= x < ihv.len()
                                        && ihv[x] == self.group_files@[k].hash@;
                                    assert(ih.deep_view()[x] == ihv[x]);
                                } else if k == j {
                                    assert(ih.deep_view()[ihv.len() as int]
                                        == self.group_files@[k].hash@);
                                }
                            }
                        }
                    } else {
                        let ghost fhv = fh.deep_view();
                        fh.push(rrow.hash.clone());
                        proof {
                            assert(fh.deep_view() =~= fhv.push(
                                self.group_files@[j as int].hash@));
                            assert(fh.deep_view()[fhv.len() as int]
                                == self.group_files@[j as int].hash@);
                            assert forall|k: int| 0 <= k < fh@.len() implies
                                gf_member(self.group_files@, (#[trigger] fh@[k])@,
                                    grow.group_id@, false) by {
                                if k < fhv.len() {
                                } else {
                                    assert((fh@[k])@ == self.group_files@[j as int].hash@);
                                }
                            }
                            assert forall|k: int| 0 <= k < fh@.len() implies
                                gf_member_upto(self.group_files@, j + 1,
                                    (#[trigger] fh@[k])@, grow.group_id@, false) by {
                                if k < fhv.len() {
                                    let w = choose|w: int| 0 <= w < j
                                        && w < self.group_files@.len()
                                        && self.group_files@[w].hash@ == (fh@[k])@
                                        && self.group_files@[w].group_id@ == grow.group_id@
                                        && self.group_files@[w].is_ignored == false;
                                    assert(0 <= w < j + 1);
                                } else {
                                    assert(self.group_files@[j as int].hash@ == (fh@[k])@);
                                }
                            }
                            assert forall|k1: int, k2: int|
                                0 <= k1 < k2 < fh@.len() implies
                                (fh@[k1])@ != (fh@[k2])@ by {
                                if k2 == fhv.len() && (fh@[k1])@ == (fh@[k2])@ {
                                    let w = choose|w: int| 0 <= w < j
                                        && w < self.group_files@.len()
                                        && self.group_files@[w].hash@ == (fh@[k1])@
                                        && self.group_files@[w].group_id@ == grow.group_id@
                                        && self.group_files@[w].is_ignored == false;
                                    assert(!(self.group_files@[w].hash@
                                        == self.group_files@[j as int].hash@
                                        && self.group_files@[w].group_id@
                                            == self.group_files@[j as int].group_id@));
                                }
                            }
                            assert forall|k: int| 0 <= k < j + 1
                                && (#[trigger] self.group_files@[k]).group_id@
                                    == grow.group_id@ implies
                                (if self.group_files@[k].is_ignored {
                                    strs_contain(ih.deep_view(), self.group_files@[k].hash@)
                                } else {
                                    strs_contain(fh.deep_view(), self.group_files@[k].hash@)
                                }) by {
                                if k < j && !self.group_files@[k].is_ignored {
                                    let x = choose|x: int| 0 <= x < fhv.len()
                                        && fhv[x] == self.group_files@[k].hash@;
                                    assert(fh.deep_view()[x] == fhv[x]);
                                } else if k == j {
                                    assert(fh.deep_view()[fhv.len() as int]
                                        == self.group_files@[k].hash@);
                                }
                            }
                        }
                    }
                }
                j = j + 1;
            }
            // the rows were met in assignment order; the listing returns
            // each group's hashes ascending
            let ghost fhu = fh@;
            let ghost ihu = ih@;
            let ghost fhud = fh.deep_view();
            let ghost ihud = ih.deep_view();
            let fh = sort_strings(fh);
            let ih = sort_strings(ih);
            proof {
                assert forall|k: int| 0 <= k < fh@.len() implies
                    gf_member(self.group_files@, (#[trigger] fh@[k])@, grow.group_id@,
                        false) by {
                    assert(strings_hold(fhu, (fh@[k])@));
                    let k0 = choose|k0: int| 0 <= k0 < fhu.len()
                        && ((fhu[k0])@ == (fh@[k])@);
                }
                assert forall|k: int| 0 <= k < ih@.len() implies
                    gf_member(self.group_files@, (#[trigger] ih@[k])@, grow.group_id@,
                        true) by {
                    assert(strings_hold(ihu, (ih@[k])@));
                    let k0 = choose|k0: int| 0 <= k0 < ihu.len()
                        && ((ihu[k0])@ == (ih@[k])@);
                }
                assert forall|k1: int, k2: int| 0 <= k1 < k2 < fh@.len() implies
                    (fh@[k1])@ != (fh@[k2])@ by {
                    crate::text::lemma_lex_asym((fh@[k1])@, (fh@[k2])@);
                }
                assert forall|k1: int, k2: int| 0 <= k1 < k2 < ih@.len() implies
                    (ih@[k1])@ != (ih@[k2])@ by {
                    crate::text::lemma_lex_asym((ih@[k1])@, (ih@[k2])@);
                }
                assert forall|k: int| 0 <= k < self.group_files@.len()
                    && (#[trigger] self.group_files@[k]).group_id@ == grow.group_id@
                    implies
                    (if self.group_files@[k].is_ignored {
                        strs_contain(ih.deep_view(), self.group_files@[k].hash@)
                    } else {
                        strs_contain(fh.deep_view(), self.group_files@[k].hash@)
                    }) by {
                    if self.group_files@[k].is_ignored {
                        let w = choose|w: int| 0 <= w < ihud.len()
                            && ihud[w] == self.group_files@[k].hash@;
                        assert(ihud[w] == (ihu[w])@);
                        assert(strings_hold(ih@, (ihu[w])@));
                        let a = choose|a: int| 0 <= a < ih@.len()
                            && ((ih@[a])@ == (ihu[w])@);
                        assert(ih.deep_view()[a] == (ih@[a])@);
                    } else {
                        let w = choose|w: int| 0 <= w < fhud.len()
                            && fhud[w] == self.group_files@[k].hash@;
                        assert(fhud[w] == (fhu[w])@);
                        assert(strings_hold(fh@, (fhu[w])@));
                        let a = choose|a: int| 0 <= a < fh@.len()
                            && ((fh@[a])@ == (fhu[w])@);
                        assert(fh.deep_view()[a] == (fh@[a])@);
                    }
                }
            }
            if fh.len() > 0 || ih.len() > 0 {
                let e = ConfirmedGroup {
                    group_id: grow.group_id.clone(),
                    canonical_name: grow.canonical_name.clone(),
                    file_hashes: fh,
                    ignored_hashes: ih,
                };
                let ghost oldr = r@;
                r.push(e);
                proof {
                    assert(group_named(self.song_groups@, r@[oldr.len() as int].group_id@,
                        r@[oldr.len() as int].canonical_name@)) by {
                        assert(self.song_groups@[gi as int].group_id@
                            == r@[oldr.len() as int].group_id@);
                    }
                    // the fresh entry's id is new: it names a group index no
                    // earlier entry's origin can share
                    assert forall|i2: int, j2: int| 0 <= i2 < j2 < r@.len() implies
                        (#[trigger] r@[i2]).group_id@ != (#[trigger] r@[j2]).group_id@ by {
                        if j2 == oldr.len() {
                            assert(r@[i2] == oldr[i2]);
                            let a2 = choose|a2: int| 0 <= a2 < oi
                                && (oldr[i2]).group_id@
                                    == self.song_groups@[order@[a2] as int].group_id@
                                && oldr[i2].canonical_name@
                                    == self.song_groups@[order@[a2] as int].canonical_name@
                                && i2 <= a2;
                            assert(order@[a2] != order@[oi as int]);
                            assert(r@[j2].group_id@
                                == self.song_groups@[gi as int].group_id@);
                            if (order@[a2] as int) < gi as int {
                                assert(self.song_groups@[order@[a2] as int].group_id@
                                    != self.song_groups@[gi as int].group_id@);
                            } else {
                                assert(self.song_groups@[gi as int].group_id@
                                    != self.song_groups@[order@[a2] as int].group_id@);
                            }
                        }
                    }
                    assert forall|i2: int, j2: int| 0 <= i2 < j2 < r@.len() implies ({
                        let a = #[trigger] r@[i2];
                        let b = #[trigger] r@[j2];
                        crate::text::lex_lt(a.canonical_name@, b.canonical_name@)
                        || (a.canonical_name@ == b.canonical_name@
                            && crate::text::lex_le(a.group_id@, b.group_id@))
                    }) by {
                        if j2 == oldr.len() {
                            assert(r@[i2] == oldr[i2]);
                            let a2 = choose|a2: int| 0 <= a2 < oi
                                && (oldr[i2]).group_id@
                                    == self.song_groups@[order@[a2] as int].group_id@
                                && oldr[i2].canonical_name@
                                    == self.song_groups@[order@[a2] as int].canonical_name@
                                && i2 <= a2;
                            assert(group_key_le(self.song_groups@[order@[a2] as int],
                                self.song_groups@[order@[oi as int] as int]));
                        }
                    }
                    assert forall|i2: int| 0 <= i2 < r@.len() implies
                        (exists|a: int| 0 <= a < oi + 1
                            && (#[trigger] r@[i2]).group_id@
                                == self.song_groups@[order@[a] as int].group_id@
                            && r@[i2].canonical_name@
                                == self.song_groups@[order@[a] as int].canonical_name@
                            && i2 <= a) by {
                        if i2 < oldr.len() {
                            assert(r@[i2] == oldr[i2]);
                            let a2 = choose|a2: int| 0 <= a2 < oi
                                && (oldr[i2]).group_id@
                                    == self.song_groups@[order@[a2] as int].group_id@
                                && oldr[i2].canonical_name@
                                    == self.song_groups@[order@[a2] as int].canonical_name@
                                && i2 <= a2;
                        } else {
                            assert(order@[oi as int] == gi);
                            assert(r@[i2].group_id@
                                == self.song_groups@[gi as int].group_id@);
                            assert(i2 == oldr.len() <= oi as int);
                        }
                    }
                    assert forall|a: int| 0 <= a < oi + 1
                        && group_has_rows(self.group_files@,
                            (#[trigger] self.song_groups@[order@[a] as int]).group_id@)
                        implies
                        entry_with_gid(r@, self.song_groups@[order@[a] as int].group_id@) by {
                        if a < oi {
                            let e = choose|e: int| 0 <= e < oldr.len()
                                && oldr[e].group_id@
                                    == self.song_groups@[order@[a] as int].group_id@;
                            assert(r@[e] == oldr[e]);
                        } else {
                            assert(r@[oldr.len() as int].group_id@
                                == self.song_groups@[gi as int].group_id@);
                        }
                    }
                }
            } else {
                proof {
                    assert forall|k: int| 0 <= k < self.group_files@.len() implies
                        (#[trigger] self.group_files@[k]).group_id@ != grow.group_id@ by {
                        if self.group_files@[k].group_id@ == grow.group_id@ {
                            if self.group_files@[k].is_ignored {
                                assert(strs_contain(ih.deep_view(),
                                    self.group_files@[k].hash@));
                            } else {
                                assert(strs_contain(fh.deep_view(),
                                    self.group_files@[k].hash@));
                            }
                        }
                    }
                    assert(!group_has_rows(self.group_files@, grow.group_id@));
                }
            }
            oi = oi + 1;
        }
        proof {
            assert forall|i2: int| 0 <= i2 < self.song_groups@.len()
                && group_has_rows(self.group_files@,
                    (#[trigger] self.song_groups@[i2]).group_id@) implies
                entry_with_gid(r@, self.song_groups@[i2].group_id@) by {
                assert(idx_in(order@, i2));
                let a = choose|a: int| 0 <= a < order@.len() && order@[a] == i2;
            }
        }
        r
    }
}

/// A group-file row with this hash, group and flag exists.
pub open spec fn gf_member(rows: Seq<GroupFileRow>, h: Seq<char>, gid: Seq<char>, ign: bool) -> bool {
    exists|i: int| 0 <= i < rows.len() && rows[i].hash@ == h && rows[i].group_id@ == gid
        && rows[i].is_ignored == ign
}

/// Such a row exists among the first `j` rows.
pub open spec fn gf_member_upto(
    rows: Seq<GroupFileRow>,
    j: int,
    h: Seq<char>,
    gid: Seq<char>,
    ign: bool,
) -> bool {
    exists|i: int| 0 <= i < j && i < rows.len() && rows[i].hash@ == h
        && rows[i].group_id@ == gid && rows[i].is_ignored == ign
}

/// `j` occurs as an element of `order`.
pub open spec fn idx_in(order: Seq<usize>, j: int) -> bool {
    exists|a: int| 0 <= a < order.len() && order[a] == j
}

/// Whether `a` sorts at or before `b` in the listing order.
fn group_le_exec(a: &GroupRow, b: &GroupRow) -> (r: bool)
    ensures
        r == group_key_le(*a, *b),
{
    if crate::text::str_lt(a.canonical_name.as_str(), b.canonical_name.as_str()) {
        true
    } else if str_eq(a.canonical_name.as_str(), b.canonical_name.as_str()) {
        crate::text::str_lt(a.group_id.as_str(), b.group_id.as_str())
            || str_eq(a.group_id.as_str(), b.group_id.as_str())
    } else {
        false
    }
}


/// The three configured folders.
#[derive(Clone, Debug)]
pub struct Settings {
    pub source_folder: String,
    pub organized_folder: String,
    pub originals_folder: String,
}

/// The outcome of validating settings: warnings only, never an error.
#[derive(Clone, Debug)]
pub struct SettingsValidation {
    pub warnings: Vec<String>,
}

/// Some settings row holds this key and value.
pub open spec fn setting_is(rows: Seq<SettingRow>, key: Seq<char>, value: Seq<char>) -> bool {
    exists|i: int| 0 <= i < rows.len() && rows[i].key@ == key && rows[i].value@ == value
}

/// The exact warnings that validating these folder strings produces.
pub open spec fn spec_validation_warnings(
    src: Seq<char>,
    org: Seq<char>,
    orig: Seq<char>,
    src_exists: bool,
    org_exists: bool,
    orig_exists: bool,
) -> Seq<Seq<char>> {
    let w0 = Seq::<Seq<char>>::empty();
    let w1 = if src.len() > 0 && !src_exists {
        w0.push("Source folder does not exist: "@ + src)
    } else {
        w0
    };
    let w2 = if org.len() > 0 && !org_exists {
        w1.push("Organized folder does not exist: "@ + org)
    } else {
        w1
    };
    let w3 = if orig.len() > 0 && !orig_exists {
        w2.push("Originals folder does not exist: "@ + orig)
    } else {
        w2
    };
    let w4 = if src.len() > 0 && org.len() > 0 && src == org {
        w3.push("Source folder and Organized folder are the same path."@)
    } else {
        w3
    };
    if src.len() > 0 && orig.len() > 0 && src == orig {
        w4.push("Source folder and Originals folder are the same path."@)
    } else {
        w4
    }
}

/// Validates folder settings: a missing folder or a clash of paths is
/// worth a warning, never an error.  Whether each folder exists is a fact
/// about the filesystem, so the caller supplies it.
pub fn validate_settings(
    s: &Settings,
    src_exists: bool,
    org_exists: bool,
    orig_exists: bool,
) -> (r: SettingsValidation)
    ensures
        r.warnings.deep_view() == spec_validation_warnings(
            s.source_folder@, s.organized_folder@, s.originals_folder@,
            src_exists, org_exists, orig_exists),
{
    let mut warnings: Vec<String> = Vec::new();
    if s.source_folder.as_str().unicode_len() > 0 && !src_exists {
        let mut w = "Source folder does not exist: ".to_owned();
        w.append(s.source_folder.as_str());
        let ghost wv = warnings.deep_view();
        warnings.push(w);
        proof {
            assert(warnings.deep_view() =~= wv.push(
                "Source folder does not exist: "@ + s.source_folder@));
        }
    }
    if s.organized_folder.as_str().unicode_len() > 0 && !org_exists {
        let mut w = "Organized folder does not exist: ".to_owned();
        w.append(s.organized_folder.as_str());
        let ghost wv = warnings.deep_view();
        warnings.push(w);
        proof {
            assert(warnings.deep_view() =~= wv.push(
                "Organized folder does not exist: "@ + s.organized_folder@));
        }
    }
    if s.originals_folder.as_str().unicode_len() > 0 && !orig_exists {
        let mut w = "Originals folder does not exist: ".to_owned();
        w.append(s.originals_folder.as_str());
        let ghost wv = warnings.deep_view();
        warnings.push(w);
        proof {
            assert(warnings.deep_view() =~= wv.push(
                "Originals folder does not exist: "@ + s.originals_folder@));
        }
    }
    if s.source_folder.as_str().unicode_len() > 0
        && s.organized_folder.as_str().unicode_len() > 0
        && str_eq(s.source_folder.as_str(), s.organized_folder.as_str()) {
        let ghost wv = warnings.deep_view();
        warnings.push("Source folder and Organized folder are the same path.".to_owned());
        proof {
            assert(warnings.deep_view() =~= wv.push(
                "Source folder and Organized folder are the same path."@));
        }
    }
    if s.source_folder.as_str().unicode_len() > 0
        && s.originals_folder.as_str().unicode_len() > 0
        && str_eq(s.source_folder.as_str(), s.originals_folder.as_str()) {
        let ghost wv = warnings.deep_view();
        warnings.push("Source folder and Originals folder are the same path.".to_owned());
        proof {
            assert(warnings.deep_view() =~= wv.push(
                "Source folder and Originals folder are the same path."@));
        }
    }
    proof {
        assert(s.source_folder@.len() == 0 || s.source_folder@.len() > 0);
    }
    SettingsValidation { warnings }
}

impl StoreModel {
    /// Validates and persists the three folder settings; warnings come
    /// back, the values are stored regardless.
    pub fn save_settings(
        &mut self,
        s: &Settings,
        src_exists: bool,
        org_exists: bool,
        orig_exists: bool,
    ) -> (r: SettingsValidation)
        requires
            old(self).wf(),
        ensures
            final(self).wf(),
            final(self).files == old(self).files,
            final(self).path_index == old(self).path_index,
            final(self).song_groups == old(self).song_groups,
            final(self).group_files == old(self).group_files,
            r.warnings.deep_view() == spec_validation_warnings(
                s.source_folder@, s.organized_folder@, s.originals_folder@,
                src_exists, org_exists, orig_exists),
            setting_is(final(self).settings@, "source_folder"@, s.source_folder@),
            setting_is(final(self).settings@, "organized_folder"@, s.organized_folder@),
            setting_is(final(self).settings@, "originals_folder"@, s.originals_folder@),
    {
        let r = validate_settings(s, src_exists, org_exists, orig_exists);
        self.set_setting("source_folder", s.source_folder.as_str());
        proof {
            lemma_setting_idx(old(self).settings@, "source_folder"@);
        }
        let ghost s1 = self.settings@;
        proof {
            assert(setting_is(s1, "source_folder"@, s.source_folder@)) by {
                let k = setting_idx(old(self).settings@, "source_folder"@);
                if k >= 0 {
                    assert(s1[k].key@ == "source_folder"@);
                } else {
                    assert(s1[old(self).settings@.len() as int].key@ == "source_folder"@);
                }
            }
        }
        self.set_setting("organized_folder", s.organized_folder.as_str());
        proof {
            lemma_setting_idx(s1, "organized_folder"@);
        }
        let ghost s2 = self.settings@;
        proof {
            reveal_strlit("source_folder");
            reveal_strlit("organized_folder");
            reveal_strlit("originals_folder");
            assert("source_folder"@.len() == 13);
            assert("organized_folder"@.len() == 16);
            assert("originals_folder"@.len() == 16);
            assert("organized_folder"@[2] == 'g');
            assert("originals_folder"@[2] == 'i');
            assert("source_folder"@ != "organized_folder"@);
            assert("source_folder"@ != "originals_folder"@);
            assert("organized_folder"@ != "originals_folder"@);
            assert(setting_is(s2, "organized_folder"@, s.organized_folder@)) by {
                let k = setting_idx(s1, "organized_folder"@);
                if k >= 0 {
                    assert(s2[k].key@ == "organized_folder"@);
                } else {
                    assert(s2[s1.len() as int].key@ == "organized_folder"@);
                }
            }
            assert(setting_is(s2, "source_folder"@, s.source_folder@)) by {
                let i = choose|i: int| 0 <= i < s1.len() && s1[i].key@ == "source_folder"@
                    && s1[i].value@ == s.source_folder@;
                let k = setting_idx(s1, "organized_folder"@);
                if k >= 0 && k == i {
                    assert(s1[i].key@ == "organized_folder"@);
                    assert(false);
                }
                assert(s2[i] == s1[i]);
            }
        }
        self.set_setting("originals_folder", s.originals_folder.as_str());
        proof {
            lemma_setting_idx(s2, "originals_folder"@);
            reveal_strlit("source_folder");
            reveal_strlit("organized_folder");
            reveal_strlit("originals_folder");
            assert("source_folder"@.len() == 13);
            assert("organized_folder"@.len() == 16);
            assert("originals_folder"@.len() == 16);
            assert("organized_folder"@[2] == 'g');
            assert("originals_folder"@[2] == 'i');
            assert("source_folder"@ != "originals_folder"@);
            assert("organized_folder"@ != "originals_folder"@);
            let s3 = self.settings@;
            assert(setting_is(s3, "originals_folder"@, s.originals_folder@)) by {
                let k = setting_idx(s2, "originals_folder"@);
                if k >= 0 {
                    assert(s3[k].key@ == "originals_folder"@);
                } else {
                    assert(s3[s2.len() as int].key@ == "originals_folder"@);
                }
            }
            assert(setting_is(s3, "source_folder"@, s.source_folder@)) by {
                let i = choose|i: int| 0 <= i < s2.len() && s2[i].key@ == "source_folder"@
                    && s2[i].value@ == s.source_folder@;
                let k = setting_idx(s2, "originals_folder"@);
                if k >= 0 && k == i {
                    assert(s2[i].key@ == "originals_folder"@);
                    assert(false);
                }
                assert(s3[i] == s2[i]);
            }
            assert(setting_is(s3, "organized_folder"@, s.organized_folder@)) by {
                let i = choose|i: int| 0 <= i < s2.len() && s2[i].key@ == "organized_folder"@
                    && s2[i].value@ == s.organized_folder@;
                let k = setting_idx(s2, "originals_folder"@);
                if k >= 0 && k == i {
                    assert(s2[i].key@ == "originals_folder"@);
                    assert(false);
                }
                assert(s3[i] == s2[i]);
            }
        }
        r
    }

    /// The stored settings, with platform defaults where a key is absent.
    pub fn get_all_settings(&self) -> (r: Settings)
        ensures
            setting_idx(self.settings@, "source_folder"@) >= 0 ==>
                r.source_folder@ == self.settings@[
                    setting_idx(self.settings@, "source_folder"@)].value@,
            setting_idx(self.settings@, "organized_folder"@) >= 0 ==>
                r.organized_folder@ == self.settings@[
                    setting_idx(self.settings@, "organized_folder"@)].value@,
            setting_idx(self.settings@, "originals_folder"@) >= 0 ==>
                r.originals_folder@ == self.settings@[
                    setting_idx(self.settings@, "originals_folder"@)].value@,
            setting_idx(self.settings@, "source_folder"@) < 0 ==>
                r.source_folder@.len() > 0
                && (exists|base: Seq<char>|
                    r.source_folder@ == base + "/Image-Line/FL Studio/Projects"@),
            setting_idx(self.settings@, "organized_folder"@) < 0 ==>
                r.organized_folder@.len() > 0
                && (exists|base: Seq<char>| r.organized_folder@ == base + "/FLP Vault"@),
            setting_idx(self.settings@, "originals_folder"@) < 0 ==>
                r.originals_folder@.len() > 0
                && (exists|base: Seq<char>|
                    r.originals_folder@ == base + "/FLP Vault Originals"@),
    {
        let source_folder = match self.get_setting("source_folder") {
            Some(v) => v,
            None => default_source_folder(),
        };
        let organized_folder = match self.get_setting("organized_folder") {
            Some(v) => v,
            None => default_organized_folder(),
        };
        let originals_folder = match self.get_setting("originals_folder") {
            Some(v) => v,
            None => default_originals_folder(),
        };
        Settings { source_folder, organized_folder, originals_folder }
    }
}

/// The base directory for defaults: the documents folder, else home, else
/// the working directory.
fn default_base() -> (r: String)
{
    match crate::outside::document_dir_string() {
        Some(d) => d,
        None => match crate::outside::home_dir_string() {
            Some(h) => h,
            None => ".".to_owned(),
        },
    }
}

/// The default projects folder: the base directory plus the fixed
/// projects path.
pub fn default_source_folder() -> (r: String)
    ensures
        r@.len() > 0,
        exists|base: Seq<char>| r@ == base + "/Image-Line/FL Studio/Projects"@,
{
    let r = default_base();
    let ghost base = r@;
    let mut r = r;
    r.append("/Image-Line/FL Studio/Projects");
    proof {
        reveal_strlit("/Image-Line/FL Studio/Projects");
        assert(r@ == base + "/Image-Line/FL Studio/Projects"@);
    }
    r
}

/// The default organized-library folder: the base directory plus the
/// fixed vault path.
pub fn default_organized_folder() -> (r: String)
    ensures
        r@.len() > 0,
        exists|base: Seq<char>| r@ == base + "/FLP Vault"@,
{
    let r = default_base();
    let ghost base = r@;
    let mut r = r;
    r.append("/FLP Vault");
    proof {
        reveal_strlit("/FLP Vault");
        assert(r@ == base + "/FLP Vault"@);
    }
    r
}

/// The default folder for preserved originals: the base directory plus
/// the fixed originals path.
pub fn default_originals_folder() -> (r: String)
    ensures
        r@.len() > 0,
        exists|base: Seq<char>| r@ == base + "/FLP Vault Originals"@,
{
    let r = default_base();
    let ghost base = r@;
    let mut r = r;
    r.append("/FLP Vault Originals");
    proof {
        reveal_strlit("/FLP Vault Originals");
        assert(r@ == base + "/FLP Vault Originals"@);
    }
    r
}


/// The `files` table after an upsert of `hash`.
pub open spec fn files_upserted(
    oldf: Seq<FileRow>,
    newf: Seq<FileRow>,
    hash: Seq<char>,
    path: Seq<char>,
    size: int,
    mtime: int,
    m: crate::parser::FlpMetadataV,
    parsed_at: int,
) -> bool {
    let k = file_idx(oldf, hash);
    if k >= 0 {
        newf.len() == oldf.len()
        && (forall|i: int| 0 <= i < oldf.len() && i != k ==> newf[i] == oldf[i])
        && file_row_is(newf[k], hash, path, size, mtime, m, parsed_at)
    } else {
        newf.len() == oldf.len() + 1
        && (forall|i: int| 0 <= i < oldf.len() ==> newf[i] == oldf[i])
        && file_row_is(newf[oldf.len() as int], hash, path, size, mtime, m, parsed_at)
    }
}

/// The path index after an upsert of `path`.
pub open spec fn pi_upserted(
    oldpi: Seq<PathRow>,
    newpi: Seq<PathRow>,
    path: Seq<char>,
    hash: Seq<char>,
    size: int,
    mtime: int,
) -> bool {
    let k = path_idx(oldpi, path);
    if k >= 0 {
        newpi.len() == oldpi.len()
        && (forall|i: int| 0 <= i < oldpi.len() && i != k ==> newpi[i] == oldpi[i])
        && path_row_is(newpi[k], path, hash, size, mtime)
    } else {
        newpi.len() == oldpi.len() + 1
        && (forall|i: int| 0 <= i < oldpi.len() ==> newpi[i] == oldpi[i])
        && path_row_is(newpi[oldpi.len() as int], path, hash, size, mtime)
    }
}

/// Metadata recorded for a file whose parse failed outright: all fields
/// empty, the failure as the only warning.
pub open spec fn error_meta_v(msg: Seq<char>) -> crate::parser::FlpMetadataV {
    crate::parser::FlpMetadataV {
        bpm_millis: None,
        time_sig_num: None,
        time_sig_den: None,
        channel_count: 0,
        pattern_count: 0,
        mixer_track_count: 0,
        generators: Seq::empty(),
        effects: Seq::empty(),
        fl_version: None,
        warnings: seq![msg],
    }
}

} // verus!
