//! The processing rules of a run: which font record serves each request of
//! a script, how requests that land on the same face are grouped, what the
//! subset of each face is and what the coverage report says of it.

use vstd::prelude::*;
use crate::ass::{AssAnalysis, FontRequest, FontUsage, RequestKey};
use crate::font::{
    FontRecord, RecordView, best_match, match_best_font, normalize_font_name, normalized,
    path_extension, path_file_stem, records_view, strings_view, portable_path, spec_path_extension,
    spec_path_file_stem,
};
use crate::text::{chars_of, decimal, decimal_int, int_to_chars, nat_to_chars, string_from_chars};
use crate::embed::EmbeddedFont;
use crate::ass::{analyze_ass, spec_analyze};
use crate::error::{AssfontsError, debug_list, debug_list_text, error_message};
use crate::cli::RunOptions;
use crate::sfnt::{extract_face_as_standalone_sfnt, spec_extract};
use crate::subset::{SubsetErrorKind, spec_subset, subset};

verus! {

/// The face a record stands for: its file and face index.
pub type ResolvedFontKey = (String, u32);

/// A resolved key as plain values.
pub open spec fn key_view(k: ResolvedFontKey) -> (Seq<char>, u32) {
    (k.0@, k.1)
}

/// A copy of a string.
fn copy_string(s: &String) -> (r: String)
    ensures
        r@ == s@,
{
    string_from_chars(&chars_of(s.as_str()))
}

/// A copy of a list of strings.
fn copy_strings(v: &Vec<String>) -> (r: Vec<String>)
    ensures
        strings_view(r@) == strings_view(v@),
{
    let mut out: Vec<String> = Vec::new();
    let mut i: usize = 0;
    while i < v.len()
        invariant
            i <= v@.len(),
            strings_view(out@) == strings_view(v@).take(i as int),
        decreases v@.len() - i,
    {
        let s = copy_string(&v[i]);
        let ghost before = out@;
        out.push(s);
        assert(strings_view(out@) =~= strings_view(before).push(s@));
        assert(strings_view(v@).take(i + 1) =~= strings_view(v@).take(i as int).push(strings_view(v@)[i as int]));
        i += 1;
    }
    assert(strings_view(v@).take(v@.len() as int) =~= strings_view(v@));
    out
}

/// A copy of a font record.
fn copy_record(r: &FontRecord) -> (c: FontRecord)
    ensures
        c@ == r@,
{
    FontRecord {
        display_name: copy_string(&r.display_name),
        normalized_name: copy_string(&r.normalized_name),
        path: copy_string(&r.path),
        face_index: r.face_index,
        inferred_weight: r.inferred_weight,
        is_italic: r.is_italic,
        aliases: copy_strings(&r.aliases),
    }
}

/// A copy of a font request.
fn copy_request(r: &FontRequest) -> (c: FontRequest)
    ensures
        c@ == r@,
{
    FontRequest { font_name: copy_string(&r.font_name), bold: r.bold, italic: r.italic }
}

/// A copy of a list of characters.
fn copy_char_list(v: &Vec<char>) -> (r: Vec<char>)
    ensures
        r@ == v@,
{
    let mut out: Vec<char> = Vec::new();
    let mut i: usize = 0;
    while i < v.len()
        invariant
            i <= v@.len(),
            out@ == v@.take(i as int),
        decreases v@.len() - i,
    {
        out.push(v[i]);
        assert(v@.take(i + 1) =~= v@.take(i as int).push(v@[i as int]));
        i += 1;
    }
    assert(v@.take(v@.len() as int) =~= v@);
    out
}

/// The face a record stands for: its file and face index.
pub fn make_resolved_key(record: &FontRecord) -> (r: ResolvedFontKey)
    ensures
        key_view(r) == (record@.path, record@.face_index),
{
    (copy_string(&record.path), record.face_index)
}

/// An index from resolved keys to positions, each key at most once.
pub struct ResolvedIndex {
    entries: Vec<ResolvedFontKey>,
    positions: Vec<usize>,
}

impl ResolvedIndex {
    /// The keys as plain values.
    pub closed spec fn keys(self) -> Seq<(Seq<char>, u32)> {
        self.entries@.map_values(|k: ResolvedFontKey| key_view(k))
    }

    /// Keys and positions line up and no key occurs twice.
    pub closed spec fn wf(self) -> bool {
        &&& self.entries@.len() == self.positions@.len()
        &&& forall|i: int, j: int| 0 <= i < j < self.entries@.len() ==> #[trigger] self.keys()[i] != #[trigger] self.keys()[j]
    }

    /// The index as a map from keys to positions.
    pub closed spec fn as_map(self) -> Map<(Seq<char>, u32), usize> {
        Map::new(
            |k: (Seq<char>, u32)| self.keys().contains(k),
            |k: (Seq<char>, u32)| self.positions@[self.keys().index_of(k)],
        )
    }

    /// An empty index.
    pub fn new() -> (r: ResolvedIndex)
        ensures
            r.wf(),
            r.as_map() == Map::<(Seq<char>, u32), usize>::empty(),
    {
        let r = ResolvedIndex { entries: Vec::new(), positions: Vec::new() };
        assert(r.as_map() =~= Map::<(Seq<char>, u32), usize>::empty());
        r
    }

    /// Where `key` sits in the entries, if it is there.
    fn find(&self, key: &ResolvedFontKey) -> (r: Option<usize>)
        requires
            self.wf(),
        ensures
            match r {
                Some(i) => i < self.entries@.len() && self.keys()[i as int] == key_view(*key),
                None => !self.keys().contains(key_view(*key)),
            },
    {
        let name = chars_of(key.0.as_str());
        let mut i: usize = 0;
        while i < self.entries.len()
            invariant
                self.wf(),
                i <= self.entries@.len(),
                name@ == key.0@,
                forall|j: int| 0 <= j < i ==> self.keys()[j] != key_view(*key),
            decreases self.entries@.len() - i,
        {
            let entry = &self.entries[i];
            if entry.1 == key.1 && crate::text::chars_eq(&chars_of(entry.0.as_str()), &name) {
                return Some(i);
            }
            i += 1;
        }
        proof {
            if self.keys().contains(key_view(*key)) {
                let j = choose|j: int| 0 <= j < self.keys().len() && self.keys()[j] == key_view(*key);
                assert(self.keys()[j] != key_view(*key));
            }
        }
        None
    }

    proof fn lemma_index_of(self, i: int)
        requires
            self.wf(),
            0 <= i < self.entries@.len(),
        ensures
            self.keys().index_of(self.keys()[i]) == i,
    {
        let k = self.keys()[i];
        assert(self.keys().contains(k));
        let j = self.keys().index_of(k);
        assert(self.keys()[j] == k);
        if j != i {
            if j < i {
                assert(self.keys()[j] != self.keys()[i]);
            } else {
                assert(self.keys()[i] != self.keys()[j]);
            }
        }
    }

    /// The position stored for `key`.
    pub fn get(&self, key: &ResolvedFontKey) -> (r: Option<usize>)
        requires
            self.wf(),
        ensures
            r == (if self.as_map().contains_key(key_view(*key)) {
                Some(self.as_map()[key_view(*key)])
            } else {
                None::<usize>
            }),
    {
        match self.find(key) {
            Some(i) => {
                proof {
                    self.lemma_index_of(i as int);
                }
                Some(self.positions[i])
            },
            None => None,
        }
    }

    /// Stores `position` for `key`, replacing what was stored for it.
    pub fn insert(&mut self, key: ResolvedFontKey, position: usize)
        requires
            old(self).wf(),
        ensures
            final(self).wf(),
            final(self).as_map() == old(self).as_map().insert(key_view(key), position),
    {
        match self.find(&key) {
            Some(i) => {
                proof {
                    self.lemma_index_of(i as int);
                }
                let ghost before = *self;
                self.positions.set(i, position);
                proof {
                    assert(self.keys() == before.keys());
                    assert forall|k: (Seq<char>, u32)| #![auto] self.keys().contains(k) implies self.positions@[self.keys().index_of(k)] == (if k == key_view(key) { position } else { before.positions@[before.keys().index_of(k)] }) by {
                        let j = self.keys().index_of(k);
                        if k != key_view(key) {
                            assert(self.keys()[j] == k);
                            assert(j != i);
                        }
                    }
                    assert(self.as_map() =~= before.as_map().insert(key_view(key), position));
                }
            },
            None => {
                let ghost before = *self;
                let ghost kv = key_view(key);
                self.entries.push(key);
                self.positions.push(position);
                proof {
                    assert(self.keys() =~= before.keys().push(kv));
                    assert forall|i: int, j: int| 0 <= i < j < self.entries@.len() implies #[trigger] self.keys()[i] != #[trigger] self.keys()[j] by {
                        if j == before.entries@.len() {
                            assert(before.keys()[i] != kv) by {
                                if before.keys()[i] == kv {
                                    assert(before.keys().contains(kv));
                                }
                            }
                        } else {
                            assert(before.keys()[i] != before.keys()[j]);
                        }
                    }
                    let n = before.entries@.len() as int;
                    self.lemma_index_of(n);
                    assert forall|k: (Seq<char>, u32)| #![auto] self.keys().contains(k) implies self.positions@[self.keys().index_of(k)] == (if k == kv { position } else { before.positions@[before.keys().index_of(k)] }) by {
                        let j = self.keys().index_of(k);
                        if k != kv {
                            assert(self.keys()[j] == k);
                            assert(j < n);
                            before.lemma_index_of(j);
                            self.lemma_index_of(j);
                        }
                    }
                    assert forall|k: (Seq<char>, u32)| self.keys().contains(k) <==> (before.keys().contains(k) || k == kv) by {
                        if self.keys().contains(k) && k != kv {
                            let j = choose|j: int| 0 <= j < self.keys().len() && self.keys()[j] == k;
                            assert(j < n);
                            assert(before.keys()[j] == k);
                        }
                        if before.keys().contains(k) {
                            let j = choose|j: int| 0 <= j < before.keys().len() && before.keys()[j] == k;
                            assert(self.keys()[j] == k);
                        }
                        if k == kv {
                            assert(self.keys()[n] == k);
                        }
                    }
                    assert(self.as_map() =~= before.as_map().insert(kv, position));
                }
            },
        }
    }
}

/// Requests that resolved to one face, with the characters they draw.
#[derive(Debug, Clone)]
pub struct PendingFontProcess {
    pub request: FontRequest,
    pub normalized_name: String,
    pub record: FontRecord,
    pub required_chars: Vec<char>,
}

/// A pending face as plain values.
pub struct PendingView {
    pub request: RequestKey,
    pub normalized_name: Seq<char>,
    pub record: RecordView,
    pub required_chars: Seq<char>,
}

impl View for PendingFontProcess {
    type V = PendingView;

    open spec fn view(&self) -> PendingView {
        PendingView {
            request: self.request@,
            normalized_name: self.normalized_name@,
            record: self.record@,
            required_chars: self.required_chars@,
        }
    }
}

/// The pending faces as plain values.
pub open spec fn pendings_view(v: Seq<PendingFontProcess>) -> Seq<PendingView> {
    v.map_values(|p: PendingFontProcess| p@)
}

/// `a` with each character of `b` that it lacks added at the end, in order.
pub open spec fn merge_chars(a: Seq<char>, b: Seq<char>) -> Seq<char>
    decreases b.len(),
{
    if b.len() == 0 {
        a
    } else {
        let m = merge_chars(a, b.drop_last());
        if m.contains(b.last()) {
            m
        } else {
            m.push(b.last())
        }
    }
}

/// Adds to `a` each character of `b` that it lacks.
fn extend_chars(a: &mut Vec<char>, b: &Vec<char>)
    ensures
        final(a)@ == merge_chars(old(a)@, b@),
{
    let mut i: usize = 0;
    while i < b.len()
        invariant
            i <= b@.len(),
            a@ == merge_chars(old(a)@, b@.take(i as int)),
        decreases b@.len() - i,
    {
        let c = b[i];
        assert(b@.take(i + 1).drop_last() =~= b@.take(i as int));
        let mut k: usize = 0;
        let mut found = false;
        while k < a.len()
            invariant
                k <= a@.len(),
                found == exists|j: int| 0 <= j < k && a@[j] == c,
            decreases a@.len() - k,
        {
            if a[k] == c {
                found = true;
            }
            k += 1;
        }
        if !found {
            a.push(c);
        }
        i += 1;
    }
    assert(b@.take(b@.len() as int) =~= b@);
}

/// The index of pending faces is well formed: each key sits at the
/// position of a pending face.
pub open spec fn index_wf(index: ResolvedIndex, len: nat) -> bool {
    &&& index.wf()
    &&& forall|k: (Seq<char>, u32)| #[trigger] index.as_map().contains_key(k) ==> index.as_map()[k] < len
}

/// What `upsert_pending_process` makes of the pending faces: a face already
/// pending gains the characters, else a new pending face is added.
pub open spec fn spec_upsert(
    grouped: Seq<PendingView>,
    index: Map<(Seq<char>, u32), usize>,
    key: (Seq<char>, u32),
    request: RequestKey,
    normalized_name: Seq<char>,
    record: RecordView,
    chars: Seq<char>,
) -> (Seq<PendingView>, Map<(Seq<char>, u32), usize>) {
    if index.contains_key(key) {
        let i = index[key] as int;
        let p = grouped[i];
        (
            grouped.update(
                i,
                PendingView { required_chars: merge_chars(p.required_chars, chars), ..p },
            ),
            index,
        )
    } else {
        (
            grouped.push(
                PendingView { request: request, normalized_name: normalized_name, record: record, required_chars: chars },
            ),
            index.insert(key, grouped.len() as usize),
        )
    }
}

/// Records a request that resolved to the face `resolved_key`: where that
/// face is pending already, it gains the request's characters; else it
/// becomes pending with the request, its name and its characters.
pub fn upsert_pending_process(
    grouped: &mut Vec<PendingFontProcess>,
    grouped_index: &mut ResolvedIndex,
    resolved_key: ResolvedFontKey,
    request: &FontRequest,
    normalized_name: &str,
    record: &FontRecord,
    required_chars: &Vec<char>,
)
    requires
        index_wf(*old(grouped_index), old(grouped)@.len()),
    ensures
        index_wf(*final(grouped_index), final(grouped)@.len()),
        (pendings_view(final(grouped)@), final(grouped_index).as_map()) == spec_upsert(
            pendings_view(old(grouped)@),
            old(grouped_index).as_map(),
            key_view(resolved_key),
            request@,
            normalized_name@,
            record@,
            required_chars@,
        ),
{
    match grouped_index.get(&resolved_key) {
        Some(existing_index) => {
            let ghost before = pendings_view(grouped@);
            let mut chars = copy_char_list(&grouped[existing_index].required_chars);
            extend_chars(&mut chars, required_chars);
            let p = &grouped[existing_index];
            let updated = PendingFontProcess {
                request: copy_request(&p.request),
                normalized_name: copy_string(&p.normalized_name),
                record: copy_record(&p.record),
                required_chars: chars,
            };
            grouped.set(existing_index, updated);
            assert(pendings_view(grouped@) =~= before.update(
                existing_index as int,
                PendingView { required_chars: merge_chars(before[existing_index as int].required_chars, required_chars@), ..before[existing_index as int] },
            ));
        },
        None => {
            let index = grouped.len();
            let ghost before = pendings_view(grouped@);
            let ghost kv = key_view(resolved_key);
            grouped.push(
                PendingFontProcess {
                    request: copy_request(request),
                    normalized_name: string_from_chars(&chars_of(normalized_name)),
                    record: copy_record(record),
                    required_chars: copy_char_list(required_chars),
                },
            );
            grouped_index.insert(resolved_key, index);
            assert(pendings_view(grouped@) =~= before.push(
                PendingView { request: request@, normalized_name: normalized_name@, record: record@, required_chars: required_chars@ },
            ));
            assert forall|k: (Seq<char>, u32)| #[trigger] grouped_index.as_map().contains_key(k) implies grouped_index.as_map()[k] < grouped@.len() by {
                if k != kv {
                    assert(old(grouped_index).as_map().contains_key(k));
                }
            }
        },
    }
}

/// The text of a request that no font serves: `name (bold=.., italic=..)`.
pub open spec fn spec_format_request(r: RequestKey) -> Seq<char> {
    r.font_name + " (bold="@ + decimal_int(r.bold as int) + ", italic="@ + (if r.italic {
        "true"@
    } else {
        "false"@
    }) + ")"@
}

/// Describes a request: `name (bold=700, italic=false)`.
pub fn format_request(request: &FontRequest) -> (r: String)
    ensures
        r@ == spec_format_request(request@),
{
    let mut out = chars_of(request.font_name.as_str());
    let mut part = chars_of(" (bold=");
    out.append(&mut part);
    let mut bold = int_to_chars(request.bold as i64);
    out.append(&mut bold);
    let mut part = chars_of(", italic=");
    out.append(&mut part);
    let mut italic = if request.italic { chars_of("true") } else { chars_of("false") };
    out.append(&mut italic);
    let mut part = chars_of(")");
    out.append(&mut part);
    string_from_chars(&out)
}

/// The state after the first `i` requests of a script: the pending faces,
/// the index of their keys, and the requests that no font serves.
pub open spec fn pending_upto(
    reqs: Seq<(RequestKey, Seq<char>)>,
    fonts: Seq<RecordView>,
    i: int,
) -> (Seq<PendingView>, Map<(Seq<char>, u32), usize>, Seq<Seq<char>>)
    decreases i,
{
    if i <= 0 {
        (Seq::empty(), Map::empty(), Seq::empty())
    } else {
        let prev = pending_upto(reqs, fonts, i - 1);
        let req = reqs[i - 1].0;
        match best_match(fonts, req) {
            Some(k) => {
                let rec = fonts[k];
                let next = spec_upsert(prev.0, prev.1, (rec.path, rec.face_index), req, normalized(req.font_name), rec, reqs[i - 1].1);
                (next.0, next.1, prev.2)
            },
            None => (prev.0, prev.1, prev.2.push(spec_format_request(req))),
        }
    }
}

/// The pending faces and their index agree: the index maps the face of
/// each pending entry to its position, and nothing else.
pub open spec fn pending_index_agrees(g: Seq<PendingView>, m: Map<(Seq<char>, u32), usize>) -> bool {
    &&& forall|k: (Seq<char>, u32)| #[trigger] m.contains_key(k) ==> m[k] < g.len() && record_key(g[m[k] as int].record) == k
    &&& forall|a: int| 0 <= a < g.len() ==> m.contains_key(#[trigger] record_key(g[a].record)) && m[record_key(g[a].record)] == a
}

proof fn lemma_pending_upto(reqs: Seq<(RequestKey, Seq<char>)>, fonts: Seq<RecordView>, i: int)
    requires
        0 <= i <= reqs.len() <= usize::MAX,
    ensures
        pending_index_agrees(pending_upto(reqs, fonts, i).0, pending_upto(reqs, fonts, i).1),
        pending_upto(reqs, fonts, i).0.len() <= i,
    decreases i,
{
    if i > 0 {
        lemma_pending_upto(reqs, fonts, i - 1);
        let prev = pending_upto(reqs, fonts, i - 1);
        let req = reqs[i - 1].0;
        match best_match(fonts, req) {
            Some(k) => {
                let rec = fonts[k];
                let key = (rec.path, rec.face_index);
                let next = spec_upsert(prev.0, prev.1, key, req, normalized(req.font_name), rec, reqs[i - 1].1);
                if prev.1.contains_key(key) {
                    let j = prev.1[key] as int;
                    assert forall|a: int| 0 <= a < next.0.len() implies #[trigger] record_key(next.0[a].record) == record_key(prev.0[a].record) by {
                        if a == j {
                            assert(next.0[a].record == prev.0[a].record);
                        }
                    }
                    assert forall|kk: (Seq<char>, u32)| #[trigger] next.1.contains_key(kk) implies next.1[kk] < next.0.len() && record_key(next.0[next.1[kk] as int].record) == kk by {
                        assert(record_key(next.0[next.1[kk] as int].record) == record_key(prev.0[prev.1[kk] as int].record));
                    }
                    assert forall|a: int| 0 <= a < next.0.len() implies next.1.contains_key(#[trigger] record_key(next.0[a].record)) && next.1[record_key(next.0[a].record)] == a by {
                        assert(record_key(next.0[a].record) == record_key(prev.0[a].record));
                    }
                } else {
                    let n = prev.0.len() as int;
                    assert((n as usize) as int == n);
                    assert(next.1 == prev.1.insert(key, n as usize));
                    assert(record_key(next.0[n].record) == key);
                    assert forall|kk: (Seq<char>, u32)| #[trigger] next.1.contains_key(kk) implies next.1[kk] < next.0.len() && record_key(next.0[next.1[kk] as int].record) == kk by {
                        if kk != key {
                            assert(prev.1.contains_key(kk));
                            assert(next.0[prev.1[kk] as int] == prev.0[prev.1[kk] as int]);
                        }
                    }
                    assert forall|a: int| 0 <= a < next.0.len() implies next.1.contains_key(#[trigger] record_key(next.0[a].record)) && next.1[record_key(next.0[a].record)] == a by {
                        if a < n {
                            assert(next.0[a] == prev.0[a]);
                            assert(prev.1.contains_key(record_key(prev.0[a].record)));
                            assert(record_key(prev.0[a].record) != key);
                        }
                    }
                }
            },
            None => {},
        }
    }
}

/// Requests that resolve to one face are processed once: the faces of the
/// pending entries are distinct, and the index maps each entry's face to
/// its position.
pub proof fn law_pending_faces_distinct(reqs: Seq<(RequestKey, Seq<char>)>, fonts: Seq<RecordView>)
    requires
        reqs.len() <= usize::MAX,
    ensures
        ({
            let st = pending_upto(reqs, fonts, reqs.len() as int);
            &&& pending_index_agrees(st.0, st.1)
            &&& forall|a: int, b: int| 0 <= a < b < st.0.len() ==> record_key(#[trigger] st.0[a].record) != record_key(#[trigger] st.0[b].record)
        }),
{
    lemma_pending_upto(reqs, fonts, reqs.len() as int);
    let st = pending_upto(reqs, fonts, reqs.len() as int);
    assert forall|a: int, b: int| 0 <= a < b < st.0.len() implies record_key(#[trigger] st.0[a].record) != record_key(#[trigger] st.0[b].record) by {
        assert(st.1[record_key(st.0[a].record)] == a);
        assert(st.1[record_key(st.0[b].record)] == b);
    }
}

/// Resolves each request of a script to the font record that serves it
/// best and groups the requests by the face they land on; returns the
/// pending faces, in the order they were first met, and the requests that
/// no font serves.
pub fn build_pending_processes(analysis: &AssAnalysis, fonts: &[FontRecord]) -> (r: (Vec<PendingFontProcess>, Vec<String>))
    ensures
        pendings_view(r.0@) == pending_upto(analysis@, records_view(fonts@), analysis@.len() as int).0,
        strings_view(r.1@) == pending_upto(analysis@, records_view(fonts@), analysis@.len() as int).2,
{
    let mut grouped: Vec<PendingFontProcess> = Vec::new();
    let mut grouped_index = ResolvedIndex::new();
    let mut missing_fonts: Vec<String> = Vec::new();
    let ghost reqs = analysis@;
    let ghost fs = records_view(fonts@);
    let mut i: usize = 0;
    while i < analysis.font_requests.len()
        invariant
            i <= analysis.font_requests@.len(),
            reqs == analysis@,
            reqs.len() == analysis.font_requests@.len(),
            fs == records_view(fonts@),
            index_wf(grouped_index, grouped@.len()),
            pendings_view(grouped@) == pending_upto(reqs, fs, i as int).0,
            grouped_index.as_map() == pending_upto(reqs, fs, i as int).1,
            strings_view(missing_fonts@) == pending_upto(reqs, fs, i as int).2,
        decreases analysis.font_requests@.len() - i,
    {
        let usage: &FontUsage = &analysis.font_requests[i];
        let request = &usage.request;
        assert(reqs[i as int] == (request@, usage.chars@));
        let normalized_name = normalize_font_name(request.font_name.as_str());
        match match_best_font(fonts, request) {
            Some(record) => {
                let resolved_key = make_resolved_key(record);
                upsert_pending_process(
                    &mut grouped,
                    &mut grouped_index,
                    resolved_key,
                    request,
                    normalized_name.as_str(),
                    record,
                    &usage.chars,
                );
            },
            None => {
                let text = format_request(request);
                let ghost before = missing_fonts@;
                missing_fonts.push(text);
                assert(strings_view(missing_fonts@) =~= strings_view(before).push(text@));
            },
        }
        i += 1;
    }
    (grouped, missing_fonts)
}

/// Whether face `index` of the font `data` has a glyph for `c`: the face
/// parses with `ttf_parser::Face::parse` and `Face::glyph_index` finds one.
pub uninterp spec fn face_has_glyph(data: Seq<u8>, index: u32, c: char) -> bool;

/// For each character, whether face `face_index` of the font has a glyph
/// for it (`ttf_parser::Face::parse`, then `Face::glyph_index`; none where
/// the face does not parse). The contract names each answer.
#[verifier::external_body]
fn glyph_support(data: &[u8], face_index: u32, chars: &[char]) -> (r: Vec<bool>)
    ensures
        r@.len() == chars@.len(),
        forall|i: int| 0 <= i < chars@.len() ==> #[trigger] r@[i] == face_has_glyph(data@, face_index, chars@[i]),
{
    let face = ttf_parser::Face::parse(data, face_index).ok();
    chars.iter().map(|c| face.as_ref().and_then(|f| f.glyph_index(*c)).is_some()).collect()
}

/// The coverage of the first `i` characters: how many the face has, and
/// the first (at most 12) that it lacks, each as a one-character string.
pub open spec fn coverage_upto(data: Seq<u8>, index: u32, chars: Seq<char>, i: int) -> (int, Seq<Seq<char>>)
    decreases i,
{
    if i <= 0 {
        (0, Seq::empty())
    } else {
        let prev = coverage_upto(data, index, chars, i - 1);
        if face_has_glyph(data, index, chars[i - 1]) {
            (prev.0 + 1, prev.1)
        } else if prev.1.len() < 12 {
            (prev.0, prev.1.push(seq![chars[i - 1]]))
        } else {
            prev
        }
    }
}

proof fn lemma_coverage_bounds(data: Seq<u8>, index: u32, chars: Seq<char>, i: int)
    requires
        0 <= i <= chars.len(),
    ensures
        0 <= coverage_upto(data, index, chars, i).0 <= i,
        coverage_upto(data, index, chars, i).1.len() <= 12,
    decreases i,
{
    if i > 0 {
        lemma_coverage_bounds(data, index, chars, i - 1);
    }
}

/// How well face `face_index` of the font covers the characters: their
/// number, how many of them it has a glyph for, and the first (at most 12)
/// that it lacks. Without characters, nothing.
pub fn measure_font_coverage(bytes: &[u8], face_index: u32, required_chars: Option<&[char]>) -> (r: (usize, usize, Vec<String>))
    ensures
        match required_chars {
            None => r.0 == 0 && r.1 == 0 && r.2@.len() == 0,
            Some(chars) => {
                &&& r.0 == chars@.len()
                &&& r.1 == coverage_upto(bytes@, face_index, chars@, chars@.len() as int).0
                &&& strings_view(r.2@) == coverage_upto(bytes@, face_index, chars@, chars@.len() as int).1
            },
        },
{
    let chars = match required_chars {
        None => return (0, 0, Vec::new()),
        Some(c) => c,
    };
    let support = glyph_support(bytes, face_index, chars);
    let mut supported_count: usize = 0;
    let mut missing_sample: Vec<String> = Vec::new();
    let mut i: usize = 0;
    while i < chars.len()
        invariant
            i <= chars@.len(),
            support@.len() == chars@.len(),
            forall|j: int| 0 <= j < chars@.len() ==> #[trigger] support@[j] == face_has_glyph(bytes@, face_index, chars@[j]),
            supported_count == coverage_upto(bytes@, face_index, chars@, i as int).0,
            strings_view(missing_sample@) == coverage_upto(bytes@, face_index, chars@, i as int).1,
        decreases chars@.len() - i,
    {
        proof {
            lemma_coverage_bounds(bytes@, face_index, chars@, i as int);
        }
        if support[i] {
            supported_count += 1;
        } else if missing_sample.len() < 12 {
            let mut one: Vec<char> = Vec::new();
            one.push(chars[i]);
            let text = string_from_chars(&one);
            let ghost before = missing_sample@;
            missing_sample.push(text);
            assert(one@ =~= seq![chars@[i as int]]);
            assert(strings_view(missing_sample@) =~= strings_view(before).push(text@));
        }
        i += 1;
    }
    (chars.len(), supported_count, missing_sample)
}

/// What subsetting a face for some characters gives, before any policy.
pub enum SubsetOutcome {
    /// The face could not be made standalone; the message.
    Face(Seq<char>),
    /// The subsetter failed.
    Subset((SubsetErrorKind, Seq<char>)),
    /// The subset font.
    Bytes(Seq<u8>),
}

/// The subset of face `index` of `data` for `chars`: nothing for no
/// characters, else the face made standalone, then subset.
pub open spec fn spec_try_subset(data: Seq<u8>, index: u32, chars: Option<Seq<char>>) -> SubsetOutcome {
    match chars {
        None => SubsetOutcome::Bytes(Seq::empty()),
        Some(c) => if c.len() == 0 {
            SubsetOutcome::Bytes(Seq::empty())
        } else {
            match spec_extract(data, index) {
                Err(m) => SubsetOutcome::Face(m),
                Ok(face) => match spec_subset(face, c) {
                    Ok(v) => SubsetOutcome::Bytes(v),
                    Err(e) => SubsetOutcome::Subset(e),
                },
            }
        },
    }
}

/// Whether a subsetting result is the outcome `o`.
pub open spec fn is_outcome(r: Result<Vec<u8>, AssfontsError>, o: SubsetOutcome) -> bool {
    match o {
        SubsetOutcome::Bytes(v) => r matches Ok(b) && b@ == v,
        SubsetOutcome::Face(m) => r matches Err(AssfontsError::Font(s)) && s@ == m,
        SubsetOutcome::Subset(e) => r matches Err(AssfontsError::Subset(f)) && f@ == e,
    }
}

/// The subset of face `face_index` of the font for the characters: empty
/// where there are none; else the face made standalone and subset.
pub fn try_subset_font(original_bytes: &[u8], face_index: u32, required_chars: Option<&[char]>) -> (r: Result<Vec<u8>, AssfontsError>)
    ensures
        is_outcome(r, spec_try_subset(original_bytes@, face_index, match required_chars {
            Some(c) => Some(c@),
            None => None,
        })),
{
    let chars = match required_chars {
        None => return Ok(Vec::new()),
        Some(c) => c,
    };
    if chars.len() == 0 {
        return Ok(Vec::new());
    }
    let base_font = match extract_face_as_standalone_sfnt(original_bytes, face_index) {
        Ok(b) => b,
        Err(e) => return Err(AssfontsError::Font(e.message())),
    };
    match subset(base_font.as_slice(), chars) {
        Ok(v) => Ok(v),
        Err(f) => Err(AssfontsError::Subset(f)),
    }
}

/// How well the font embedded for a request covers the script's characters.
#[derive(Debug, Clone)]
pub struct GlyphCoverageReport {
    pub requested_font: String,
    pub requested_bold: i32,
    pub requested_italic: bool,
    pub resolved_font_file: String,
    pub required_count: usize,
    pub supported_count: usize,
    pub missing_sample: Vec<String>,
    pub original_bytes: usize,
    pub subset_bytes: usize,
    pub error: Option<String>,
}

/// The coverage report that a request, its record, the measured coverage,
/// the sizes and the subsetting error give.
pub open spec fn is_report(
    c: GlyphCoverageReport,
    request: RequestKey,
    record: RecordView,
    measured: (int, int, Seq<Seq<char>>),
    original_len: int,
    kept_len: int,
    error: Option<Seq<char>>,
) -> bool {
    &&& c.requested_font@ == request.font_name
    &&& c.requested_bold == request.bold
    &&& c.requested_italic == request.italic
    &&& c.resolved_font_file@ == record.path
    &&& c.required_count == measured.0
    &&& c.supported_count == measured.1
    &&& strings_view(c.missing_sample@) == measured.2
    &&& c.original_bytes == original_len
    &&& c.subset_bytes == kept_len
    &&& match error {
        None => c.error is None,
        Some(m) => c.error matches Some(t) && t@ == m,
    }
}

/// The text of the error about characters that a font lacks.
pub open spec fn missing_chars_text(display_name: Seq<char>, missing: Seq<Seq<char>>) -> Seq<char> {
    "Font '"@ + display_name + "' is missing required characters: "@ + debug_list_text(missing)
}

/// The setting of an error about a font file.
pub open spec fn font_path_context(path: Seq<char>) -> Seq<char> {
    "font path: "@ + path
}

/// What `build_coverage_report` gives, as a relation between its inputs
/// (the subsetting result `subset_result`) and its result `out`.
pub open spec fn spec_coverage(
    options: RunOptions,
    request: RequestKey,
    record: RecordView,
    chars: Seq<char>,
    original: Seq<u8>,
    subset_result: Result<Vec<u8>, AssfontsError>,
    out: Result<(Option<GlyphCoverageReport>, Vec<u8>), AssfontsError>,
) -> bool {
    if subset_result is Err && options.strict && !options.allow_error_fonts {
        out matches Err(AssfontsError::Context(c, inner)) && c@ == font_path_context(record.path) && *inner
            == subset_result->Err_0
    } else {
        let kept: Seq<u8> = match subset_result {
            Ok(v) => v@,
            Err(_) => original,
        };
        let error: Option<Seq<char>> = match subset_result {
            Ok(_) => None,
            Err(e) => Some(error_message(e)),
        };
        let cov = coverage_upto(kept, record.face_index, chars, chars.len() as int);
        if !options.strict && !options.report {
            out matches Ok(p) && p.0 is None && p.1@ == kept
        } else if options.strict && !options.allow_missing_sample && cov.1.len() > 0 {
            out matches Err(AssfontsError::Context(c, inner)) && c@ == font_path_context(record.path) && (*inner
                matches AssfontsError::Font(m) && m@ == missing_chars_text(record.display_name, cov.1))
        } else {
            out matches Ok(p) && p.1@ == kept && if options.report {
                p.0 matches Some(c) && is_report(c, request, record, (chars.len() as int, cov.0, cov.1), original.len() as int, kept.len() as int, error)
            } else {
                p.0 is None
            }
        }
    }
}

/// Applies the run's policy to a subsetting result: under `strict` a
/// failure stops the run unless `allow_error_fonts`, else the whole font
/// is embedded; under `strict` or `report` the coverage of what is embedded
/// is measured, and under `strict` a font that lacks characters stops the
/// run unless `allow_missing_sample`; under `report` the coverage report is
/// made. Returns the report, if any, and the bytes to embed.
pub fn build_coverage_report(
    options: &RunOptions,
    request: &FontRequest,
    record: &FontRecord,
    required_chars: &[char],
    original_bytes: &[u8],
    subset_bytes: Result<Vec<u8>, AssfontsError>,
) -> (r: Result<(Option<GlyphCoverageReport>, Vec<u8>), AssfontsError>)
    ensures
        spec_coverage(*options, request@, record@, required_chars@, original_bytes@, subset_bytes, r),
{
    let ghost subset_in = subset_bytes;
    let (kept, error) = match subset_bytes {
        Ok(bytes) => (bytes, None),
        Err(err) => {
            if options.strict && !options.allow_error_fonts {
                let context = string_from_chars(&concat_chars("font path: ", record.path.as_str()));
                return Err(AssfontsError::in_context(context, err));
            }
            let message = err.message();
            (vstd::slice::slice_to_vec(original_bytes), Some(message))
        },
    };
    if !options.strict && !options.report {
        return Ok((None, kept));
    }
    let (required_count, supported_count, missing_sample) = measure_font_coverage(
        kept.as_slice(),
        record.face_index,
        Some(required_chars),
    );
    if options.strict && !options.allow_missing_sample && missing_sample.len() > 0 {
        let mut text = concat_chars("Font '", record.display_name.as_str());
        let mut rest = chars_of("' is missing required characters: ");
        text.append(&mut rest);
        let list = debug_list(&missing_sample);
        let mut list_chars = chars_of(list.as_str());
        text.append(&mut list_chars);
        let inner = AssfontsError::Font(string_from_chars(&text));
        let context = string_from_chars(&concat_chars("font path: ", record.path.as_str()));
        return Err(AssfontsError::in_context(context, inner));
    }
    if options.report {
        let coverage = GlyphCoverageReport {
            requested_font: copy_string(&request.font_name),
            requested_bold: request.bold,
            requested_italic: request.italic,
            resolved_font_file: copy_string(&record.path),
            required_count,
            supported_count,
            missing_sample,
            original_bytes: original_bytes.len(),
            subset_bytes: kept.len(),
            error,
        };
        Ok((Some(coverage), kept))
    } else {
        Ok((None, kept))
    }
}

/// The characters of `a` followed by those of `b`.
fn concat_chars(a: &str, b: &str) -> (r: Vec<char>)
    ensures
        r@ == a@ + b@,
{
    let mut out = chars_of(a);
    let mut rest = chars_of(b);
    out.append(&mut rest);
    out
}

/// What processing one request gives: the font to embed and, under
/// `report`, its coverage.
#[derive(Debug)]
pub struct FontProcessResult {
    pub embedded_font: EmbeddedFont,
    pub coverage: Option<GlyphCoverageReport>,
}

/// The name a face is embedded under: the file's stem, the face index in
/// brackets, and the file's extension.
pub open spec fn embed_name(base: Seq<char>, face_index: u32, ext: Seq<char>) -> Seq<char> {
    base + "["@ + decimal(face_index as nat) + "]."@ + ext
}

/// The text held, or `d` where there is none.
pub open spec fn or_default(o: Option<Seq<char>>, d: Seq<char>) -> Seq<char> {
    match o {
        Some(t) => t,
        None => d,
    }
}

/// Processes the requests that resolved to one face: subsets the face for
/// their characters, applies the run's policy to the result, and names the
/// font to embed `stem[face].ext` after the record's file (`font` where the
/// path has no extension, the normalized request name where it has no
/// stem). `original_bytes` are the bytes of the record's file.
pub fn process_font_request(
    options: &RunOptions,
    request: &FontRequest,
    required_chars: &[char],
    normalized_name: &str,
    record: &FontRecord,
    original_bytes: &[u8],
) -> (r: Result<FontProcessResult, AssfontsError>)
    ensures
        exists|sr: Result<Vec<u8>, AssfontsError>|
            #[trigger] is_outcome(sr, spec_try_subset(original_bytes@, record@.face_index, Some(required_chars@)))
                && spec_coverage(
                *options,
                request@,
                record@,
                required_chars@,
                original_bytes@,
                sr,
                match r {
                    Ok(p) => Ok((p.coverage, p.embedded_font.bytes)),
                    Err(e) => Err(e),
                },
            ),
        r matches Ok(p) ==> exists|base: Seq<char>, ext: Seq<char>|
            p.embedded_font.font_name@ == #[trigger] embed_name(base, record@.face_index, ext),
        portable_path(record@.path) ==> (r matches Ok(p) ==> p.embedded_font.font_name@ == embed_name(
            or_default(spec_path_file_stem(record@.path), normalized_name@),
            record@.face_index,
            or_default(spec_path_extension(record@.path), "font"@),
        )),
{
    let extension = match path_extension(record.path.as_str()) {
        Some(e) => e,
        None => string_from_chars(&chars_of("font")),
    };
    let name_base = match path_file_stem(record.path.as_str()) {
        Some(stem) => stem,
        None => string_from_chars(&chars_of(normalized_name)),
    };
    let subset_bytes = try_subset_font(original_bytes, record.face_index, Some(required_chars));
    let ghost sr = subset_bytes;
    let mut name = concat_chars(name_base.as_str(), "[");
    let mut index = nat_to_chars(record.face_index as u64);
    name.append(&mut index);
    let mut rest = concat_chars("].", extension.as_str());
    name.append(&mut rest);
    let embed = string_from_chars(&name);
    assert(embed@ == embed_name(name_base@, record@.face_index, extension@));
    let outcome = build_coverage_report(options, request, record, required_chars, original_bytes, subset_bytes);
    match outcome {
        Ok((coverage, bytes)) => {
            Ok(FontProcessResult { embedded_font: EmbeddedFont { font_name: embed, bytes }, coverage })
        },
        Err(e) => Err(e),
    }
}

/// The positions of the reports that lack characters, and of those with a
/// subsetting error, among the first `i`.
pub open spec fn report_indices_upto(reports: Seq<GlyphCoverageReport>, i: int) -> (Seq<usize>, Seq<usize>)
    decreases i,
{
    if i <= 0 {
        (Seq::empty(), Seq::empty())
    } else {
        let prev = report_indices_upto(reports, i - 1);
        let c = reports[i - 1];
        (
            if c.missing_sample@.len() > 0 { prev.0.push((i - 1) as usize) } else { prev.0 },
            if c.error is Some { prev.1.push((i - 1) as usize) } else { prev.1 },
        )
    }
}

/// The positions of the reports whose fonts lack characters, and of those
/// whose subsetting failed.
pub fn coverage_indices(glyph_coverage: &Vec<GlyphCoverageReport>) -> (r: (Vec<usize>, Vec<usize>))
    ensures
        (r.0@, r.1@) == report_indices_upto(glyph_coverage@, glyph_coverage@.len() as int),
{
    let mut missing_sample_index: Vec<usize> = Vec::new();
    let mut error_index: Vec<usize> = Vec::new();
    let mut i: usize = 0;
    while i < glyph_coverage.len()
        invariant
            i <= glyph_coverage@.len(),
            (missing_sample_index@, error_index@) == report_indices_upto(glyph_coverage@, i as int),
        decreases glyph_coverage@.len() - i,
    {
        let coverage = &glyph_coverage[i];
        if coverage.missing_sample.len() > 0 {
            missing_sample_index.push(i);
        }
        if coverage.error.is_some() {
            error_index.push(i);
        }
        i += 1;
    }
    (missing_sample_index, error_index)
}

/// Plans the processing of a script: resolves and groups its requests;
/// under `strict`, a request that no font serves stops the script, unless
/// missing fonts are allowed.
pub fn plan_script(options: &RunOptions, input: &str, content: &str, fonts: &[FontRecord]) -> (r: Result<(Vec<PendingFontProcess>, Vec<String>), AssfontsError>)
    ensures
        ({
            let st = pending_upto(spec_analyze(content@), records_view(fonts@), spec_analyze(content@).len() as int);
            if options.strict && !options.allow_missing_fonts && st.2.len() > 0 {
                r matches Err(AssfontsError::MissingFonts(p, m)) && p@ == input@ && strings_view(m@) == st.2
            } else {
                r matches Ok(g) && pendings_view(g.0@) == st.0 && strings_view(g.1@) == st.2
            }
        }),
{
    let analysis = analyze_ass(content);
    let (grouped, missing_fonts) = build_pending_processes(&analysis, fonts);
    if options.strict && !options.allow_missing_fonts && missing_fonts.len() > 0 {
        return Err(AssfontsError::MissingFonts(string_from_chars(&chars_of(input)), missing_fonts));
    }
    Ok((grouped, missing_fonts))
}

/// The key of a record as plain values.
pub open spec fn record_key(f: RecordView) -> (Seq<char>, u32) {
    (f.path, f.face_index)
}

/// The keys of the records.
pub open spec fn record_keys(fs: Seq<RecordView>) -> Set<(Seq<char>, u32)> {
    Set::new(|k: (Seq<char>, u32)| exists|i: int| 0 <= i < fs.len() && record_key(#[trigger] fs[i]) == k)
}

/// The scanned records, then those of the first `i` indexed records whose
/// face none before them has.
pub open spec fn merge_upto(scanned: Seq<RecordView>, db: Seq<RecordView>, i: int) -> Seq<RecordView>
    decreases i,
{
    if i <= 0 {
        scanned
    } else {
        let prev = merge_upto(scanned, db, i - 1);
        if record_keys(prev).contains(record_key(db[i - 1])) {
            prev
        } else {
            prev.push(db[i - 1])
        }
    }
}

/// The scanned records, then each indexed record whose face (file and face
/// index) is not among those before it.
pub fn merge_fonts(scanned: Vec<FontRecord>, db_fonts: Vec<FontRecord>) -> (r: Vec<FontRecord>)
    ensures
        records_view(r@) == merge_upto(records_view(scanned@), records_view(db_fonts@), db_fonts@.len() as int),
{
    let mut merged = scanned;
    let ghost sv = records_view(merged@);
    let ghost dv = records_view(db_fonts@);
    let mut existing = ResolvedIndex::new();
    let mut k: usize = 0;
    while k < merged.len()
        invariant
            k <= merged@.len(),
            sv == records_view(merged@),
            existing.wf(),
            forall|key: (Seq<char>, u32)| existing.as_map().contains_key(key) <==> exists|j: int| 0 <= j < k && record_key(#[trigger] sv[j]) == key,
        decreases merged@.len() - k,
    {
        let key = make_resolved_key(&merged[k]);
        let ghost kv = key_view(key);
        assert(kv == record_key(sv[k as int]));
        existing.insert(key, k);
        proof {
            assert forall|key2: (Seq<char>, u32)| existing.as_map().contains_key(key2) <==> exists|j: int| 0 <= j < k + 1 && record_key(#[trigger] sv[j]) == key2 by {
                if key2 == kv {
                    assert(record_key(sv[k as int]) == key2);
                }
                if exists|j: int| 0 <= j < k + 1 && record_key(#[trigger] sv[j]) == key2 {
                    let j = choose|j: int| 0 <= j < k + 1 && record_key(#[trigger] sv[j]) == key2;
                    if j < k {
                        assert(exists|j2: int| 0 <= j2 < k && record_key(#[trigger] sv[j2]) == key2);
                    }
                }
            }
        }
        k += 1;
    }
    let mut i: usize = 0;
    while i < db_fonts.len()
        invariant
            i <= db_fonts@.len(),
            dv == records_view(db_fonts@),
            existing.wf(),
            records_view(merged@) == merge_upto(sv, dv, i as int),
            forall|key: (Seq<char>, u32)| existing.as_map().contains_key(key) <==> record_keys(records_view(merged@)).contains(key),
        decreases db_fonts@.len() - i,
    {
        let key = make_resolved_key(&db_fonts[i]);
        let ghost before = records_view(merged@);
        if existing.get(&key).is_none() {
            let position = merged.len();
            existing.insert(key, position);
            merged.push(copy_record(&db_fonts[i]));
            proof {
                assert(records_view(merged@) =~= before.push(dv[i as int]));
                let now = records_view(merged@);
                assert forall|key2: (Seq<char>, u32)| existing.as_map().contains_key(key2) <==> record_keys(now).contains(key2) by {
                    if record_keys(now).contains(key2) {
                        let j = choose|j: int| 0 <= j < now.len() && record_key(#[trigger] now[j]) == key2;
                        if j < before.len() {
                            assert(record_keys(before).contains(key2));
                        }
                    }
                    if record_keys(before).contains(key2) {
                        let j = choose|j: int| 0 <= j < before.len() && record_key(#[trigger] before[j]) == key2;
                        assert(now[j] == before[j]);
                    }
                    if key2 == record_key(dv[i as int]) {
                        assert(now[before.len() as int] == dv[i as int]);
                    }
                }
            }
        }
        i += 1;
    }
    merged
}

/// The fonts of a run: the indexed records where no font directory is
/// given, else the scanned records merged with the indexed ones; an error
/// where neither gives any record.
pub fn select_run_fonts(db_fonts: Vec<FontRecord>, scanned: Option<Vec<FontRecord>>, dbpath: &str) -> (r: Result<Vec<FontRecord>, AssfontsError>)
    ensures
        match scanned {
            None => if db_fonts@.len() == 0 {
                r matches Err(AssfontsError::MissingFontSource(p)) && p@ == dbpath@
            } else {
                r matches Ok(v) && records_view(v@) == records_view(db_fonts@)
            },
            Some(s) => if s@.len() == 0 && db_fonts@.len() == 0 {
                r matches Err(AssfontsError::MissingFontSource(p)) && p@ == dbpath@
            } else {
                r matches Ok(v) && records_view(v@) == merge_upto(records_view(s@), records_view(db_fonts@), db_fonts@.len() as int)
            },
        },
{
    match scanned {
        None => {
            if db_fonts.len() == 0 {
                return Err(AssfontsError::MissingFontSource(string_from_chars(&chars_of(dbpath))));
            }
            Ok(db_fonts)
        },
        Some(s) => {
            if s.len() == 0 && db_fonts.len() == 0 {
                return Err(AssfontsError::MissingFontSource(string_from_chars(&chars_of(dbpath))));
            }
            Ok(merge_fonts(s, db_fonts))
        },
    }
}

} // verus!
