//! Document bookkeeping: the current document, the most-recent-first list
//! of documents, display names and the document file extension. Paths are
//! held as text; `std::path` decides what they mean.

use vstd::prelude::*;
use crate::model::{CalendarConfig, Model, PlanId, TShirtSize};
use crate::text::{chars_of, is_white_space, push_char, push_text, string_of, trim_back, trim_chars, trim_front, trim_spec};

verus! {

/// File extension for brick_road documents.
pub const DOC_EXTENSION: &'static str = "brickroad";

/// Maximum entries kept in the recent-documents list.
pub const MAX_RECENTS: usize = 8;

/// The path of the currently open document.
#[derive(Debug)]
pub struct CurrentDocument(pub String);

/// A requested document operation.
#[derive(Debug)]
pub enum DocRequest {
    /// Open an existing document.
    Open(String),
    /// Create a fresh blank document (one empty plan) at the path and open it.
    New(String),
    /// Write the current model to a new file and continue working in it.
    Duplicate(String),
}

/// One-shot mailbox the FILE menu writes and the document system drains.
#[derive(Debug)]
pub struct PendingDocument(pub Option<DocRequest>);

impl Default for PendingDocument {
    fn default() -> (r: PendingDocument)
        ensures
            r.0 is None,
    {
        PendingDocument(None)
    }
}

/// Whether the FILE menu popup is open, plus the click-outside arming flag.
#[derive(Debug)]
pub struct FileMenuState {
    pub open: bool,
    pub armed: bool,
}

impl Default for FileMenuState {
    fn default() -> (r: FileMenuState)
        ensures
            !r.open && !r.armed,
    {
        FileMenuState { open: false, armed: false }
    }
}

/// Whether `std::path` considers the paths written `a` and `b` the same
/// (`Path == Path`, which compares components).
pub uninterp spec fn paths_equal(a: Seq<char>, b: Seq<char>) -> bool;

/// The file stem `Path::file_stem` finds in the path written `p`.
pub uninterp spec fn file_stem_text(p: Seq<char>) -> Option<Seq<char>>;

/// Whether `Path::extension` finds an extension in the path written `p`.
pub uninterp spec fn has_extension_text(p: Seq<char>) -> bool;

/// The path `Path::with_extension(ext)` makes of the path written `p`.
pub uninterp spec fn with_extension_text(p: Seq<char>, ext: Seq<char>) -> Seq<char>;

/// Calls `Path::eq`: named; the same text is the same path.
#[verifier::external_body]
fn same_path(a: &str, b: &str) -> (r: bool)
    ensures
        r == paths_equal(a@, b@),
        a@ == b@ ==> r,
{
    std::path::Path::new(a) == std::path::Path::new(b)
}

/// Calls `Path::file_stem` (converted lossily to text); named.
#[verifier::external_body]
fn path_file_stem(p: &str) -> (r: Option<String>)
    ensures
        match r {
            Some(s) => file_stem_text(p@) == Some(s@),
            None => file_stem_text(p@) is None,
        },
{
    std::path::Path::new(p).file_stem().map(|s| s.to_string_lossy().into_owned())
}

/// Calls `Path::extension` and tests it for `Some`; named.
#[verifier::external_body]
fn path_has_extension(p: &str) -> (r: bool)
    ensures
        r == has_extension_text(p@),
{
    std::path::Path::new(p).extension().is_some()
}

/// No path separator (`/`, or `\\` on Windows) occurs in `s`.
pub open spec fn has_no_separator(s: Seq<char>) -> bool {
    forall|i: int| 0 <= i < s.len() ==> s[i] != '/' && s[i] != '\\'
}

/// Calls `Path::with_extension` (converted lossily to text); named. It
/// panics on an extension holding a path separator, which `requires` rules
/// out. As `PathBuf::set_extension` documents, a path with a file name gets
/// the extension: afterwards `Path::extension` finds one when `ext` is not
/// empty.
#[verifier::external_body]
fn path_with_extension(p: &str, ext: &str) -> (r: String)
    requires
        has_no_separator(ext@),
    ensures
        r@ == with_extension_text(p@, ext@),
        file_stem_text(p@) is Some && ext@.len() > 0 ==> has_extension_text(r@),
{
    std::path::Path::new(p).with_extension(ext).to_string_lossy().into_owned()
}

/// The entries of `list` that are not the path `path`.
pub open spec fn other_paths(list: Seq<Seq<char>>, path: Seq<char>) -> Seq<Seq<char>> {
    list.filter(|p: Seq<char>| !paths_equal(p, path))
}

/// `path` first, then the other entries of `list` in order, at most `cap`.
pub open spec fn merged_recents(list: Seq<Seq<char>>, path: Seq<char>, cap: nat) -> Seq<Seq<char>> {
    let full = seq![path] + other_paths(list, path);
    if full.len() <= cap { full } else { full.take(cap as int) }
}

pub open spec fn texts(v: Seq<String>) -> Seq<Seq<char>> {
    v.map_values(|s: String| s@)
}

/// Moves `path` to the front of `list`, dropping other entries for the same
/// path and keeping at most `cap` entries.
pub fn merge_recent(list: Vec<String>, path: &str, cap: usize) -> (r: Vec<String>)
    ensures
        texts(r@) == merged_recents(texts(list@), path@, cap as nat),
{
    let ghost lv = texts(list@);
    let mut out: Vec<String> = Vec::new();
    out.push(String::from_str(path));
    let mut i: usize = 0;
    while i < list.len()
        invariant
            i <= list@.len(),
            lv == texts(list@),
            texts(out@) == seq![path@] + lv.take(i as int).filter(|p: Seq<char>| !paths_equal(p, path@)),
        decreases list.len() - i,
    {
        let ghost pre = lv.take(i as int);
        assert(lv.take(i + 1) =~= pre.push(lv[i as int]));
        proof {
            pre.lemma_filter_push(lv[i as int], |p: Seq<char>| !paths_equal(p, path@));
        }
        let ghost before = texts(out@);
        if !same_path(list[i].as_str(), path) {
            out.push(list[i].clone());
            assert(texts(out@) =~= before.push(lv[i as int]));
        }
        i += 1;
    }
    assert(lv.take(i as int) =~= lv);
    let ghost full = texts(out@);
    out.truncate(cap);
    assert(texts(out@) =~= (if full.len() <= cap { full } else { full.take(cap as int) }));
    out
}

/// Merging the same path twice gives what merging it once gives.
pub proof fn lemma_merge_recent_idempotent(list: Seq<Seq<char>>, path: Seq<char>, cap: nat)
    requires
        paths_equal(path, path),
    ensures
        merged_recents(merged_recents(list, path, cap), path, cap) == merged_recents(list, path, cap),
{
    let once = merged_recents(list, path, cap);
    let others = other_paths(list, path);
    let full = seq![path] + others;
    assert(forall|j: int| 0 <= j < others.len() ==> !paths_equal(#[trigger] others[j], path)) by {
        assert forall|j: int| 0 <= j < others.len() implies !paths_equal(#[trigger] others[j], path) by {
            broadcast use vstd::seq_lib::group_filter_ensures;
            assert(others.contains(others[j]));
        }
    }
    if cap == 0 {
        assert(once =~= Seq::<Seq<char>>::empty());
        assert(other_paths(once, path) =~= Seq::<Seq<char>>::empty());
        assert(merged_recents(once, path, cap) =~= once);
    } else {
        // `once` is `path` then a prefix of `others`; filtering drops the head.
        let tail = once.drop_first();
        assert(once =~= seq![path] + tail);
        assert(forall|j: int| 0 <= j < tail.len() ==> tail[j] == others[j]);
        lemma_filter_all_kept(tail, path);
        lemma_filter_front_dropped(path, tail);
        assert(other_paths(once, path) =~= tail);
        assert(seq![path] + tail =~= once);
    }
}

proof fn lemma_filter_all_kept(s: Seq<Seq<char>>, path: Seq<char>)
    requires
        forall|j: int| 0 <= j < s.len() ==> !paths_equal(#[trigger] s[j], path),
    ensures
        other_paths(s, path) == s,
    decreases s.len(),
{
    if s.len() > 0 {
        lemma_filter_all_kept(s.drop_last(), path);
        s.drop_last().lemma_filter_push(s.last(), |p: Seq<char>| !paths_equal(p, path));
        assert(s.drop_last().push(s.last()) =~= s);
    } else {
        assert(other_paths(s, path) =~= s);
    }
}

proof fn lemma_filter_front_dropped(path: Seq<char>, tail: Seq<Seq<char>>)
    requires
        paths_equal(path, path),
    ensures
        other_paths(seq![path] + tail, path) == other_paths(tail, path),
    decreases tail.len(),
{
    if tail.len() == 0 {
        let s = seq![path];
        Seq::<Seq<char>>::empty().lemma_filter_push(path, |p: Seq<char>| !paths_equal(p, path));
        assert(Seq::<Seq<char>>::empty().push(path) =~= s);
        assert(seq![path] + tail =~= s);
        assert(other_paths(Seq::<Seq<char>>::empty(), path) =~= Seq::<Seq<char>>::empty());
        assert(other_paths(tail, path) =~= Seq::<Seq<char>>::empty());
    } else {
        lemma_filter_front_dropped(path, tail.drop_last());
        (seq![path] + tail.drop_last()).lemma_filter_push(tail.last(), |p: Seq<char>| !paths_equal(p, path));
        tail.drop_last().lemma_filter_push(tail.last(), |p: Seq<char>| !paths_equal(p, path));
        assert((seq![path] + tail.drop_last()).push(tail.last()) =~= seq![path] + tail);
        assert(tail.drop_last().push(tail.last()) =~= tail);
    }
}

/// The display name for a document path: its file stem, or "untitled".
pub fn doc_display_name(path: &str) -> (r: String)
    ensures
        r@ == match file_stem_text(path@) {
            Some(s) => s,
            None => "untitled"@,
        },
{
    match path_file_stem(path) {
        Some(s) => s,
        None => String::from_str("untitled"),
    }
}

/// Gives a path without an extension the document extension; a path that
/// has one is returned as it is.
pub fn with_doc_extension(path: String) -> (r: String)
    ensures
        r@ == if has_extension_text(path@) { path@ } else { with_extension_text(path@, DOC_EXTENSION@) },
        file_stem_text(path@) is Some ==> has_extension_text(r@),
{
    proof {
        reveal_strlit("brickroad");
    }
    if !path_has_extension(path.as_str()) {
        path_with_extension(path.as_str(), DOC_EXTENSION)
    } else {
        path
    }
}

/// A fresh document's model: one empty plan named after the file, with the
/// template's calendar and t-shirt sizes and none of its work.
pub fn blank_document_model(path: &str, template: &Model) -> (r: Model)
    requires
        template.wf(),
    ensures
        r.wf(),
        r.calendar.start_date == template.calendar.start_date,
        r.calendar.working_days_per_week == template.calendar.working_days_per_week,
        r.calendar.non_working_dates@ == template.calendar.non_working_dates@,
        r.t_shirt_sizes@ == template.t_shirt_sizes@,
        r.work_blocks@.len() == 0,
        r.dependencies@.len() == 0,
        r.resource_blocks@.len() == 0,
        r.plans@.len() == 1,
        r.plans@[0].name@ == (match file_stem_text(path@) {
            Some(s) => s,
            None => "untitled"@,
        }),
        r.plans@[0].id == PlanId(1),
        r.plans@[0].root_blocks@.len() == 0,
        r.plans@[0].block_rows@.len() == 0,
        r.plans@[0].row_names@.len() == 0,
        r.plans@[0].allocations@.len() == 0,
        r.plans@[0].branch_start_day is None,
        r.next_id == 2,
{
    let mut model = Model::default();
    model.calendar = template.calendar.clone();
    model.t_shirt_sizes = clone_sizes(&template.t_shirt_sizes);
    let name = doc_display_name(path);
    model.create_plan(name.as_str(), None);
    model
}

fn clone_sizes(v: &Vec<TShirtSize>) -> (r: Vec<TShirtSize>)
    ensures
        r@ == v@,
{
    let mut out: Vec<TShirtSize> = Vec::new();
    let mut i: usize = 0;
    while i < v.len()
        invariant
            i <= v@.len(),
            out@ == v@.take(i as int),
        decreases v.len() - i,
    {
        out.push(v[i].clone());
        assert(out@ =~= v@.take(i + 1));
        i += 1;
    }
    assert(v@.take(i as int) =~= v@);
    out
}

// ── the recent-documents file ───────────────────────────────────────────────

/// The pieces of `s` between line breaks, in order (a text without a break
/// is one piece).
pub open spec fn split_lines(s: Seq<char>) -> Seq<Seq<char>>
    decreases s.len(),
{
    if s.len() == 0 {
        seq![Seq::empty()]
    } else {
        let p = split_lines(s.drop_last());
        if s.last() == '\n' {
            p.push(Seq::empty())
        } else {
            p.update(p.len() - 1, p.last().push(s.last()))
        }
    }
}

/// The entries of a recent-documents file: its lines, trimmed, empty ones
/// dropped.
pub open spec fn recent_entries_spec(s: Seq<char>) -> Seq<Seq<char>> {
    split_lines(s).map_values(|l: Seq<char>| trim_spec(l)).filter(|l: Seq<char>| l.len() > 0)
}

/// The text of a recent-documents file: one entry per line.
pub open spec fn joined_lines(v: Seq<Seq<char>>) -> Seq<char>
    decreases v.len(),
{
    if v.len() == 0 {
        Seq::empty()
    } else if v.len() == 1 {
        v[0]
    } else {
        joined_lines(v.drop_last()) + seq!['\n'] + v.last()
    }
}

proof fn lemma_split_lines_nonempty(s: Seq<char>)
    ensures
        split_lines(s).len() >= 1,
    decreases s.len(),
{
    if s.len() > 0 {
        lemma_split_lines_nonempty(s.drop_last());
    }
}

/// The entries of a recent-documents file, most recent first.
pub fn recent_entries(content: &str) -> (r: Vec<String>)
    ensures
        texts(r@) == recent_entries_spec(content@),
{
    let cs = chars_of(content);
    let ghost keep = |l: Seq<char>| l.len() > 0;
    let ghost tr = |l: Seq<char>| trim_spec(l);
    let mut out: Vec<String> = Vec::new();
    let mut line: Vec<char> = Vec::new();
    let mut i: usize = 0;
    assert(cs@.take(0) =~= Seq::<char>::empty());
    proof {
        assert(split_lines(Seq::<char>::empty()).drop_last() =~= Seq::<Seq<char>>::empty());
        assert(Seq::<Seq<char>>::empty().map_values(tr).filter(keep) =~= Seq::<Seq<char>>::empty());
    }
    while i < cs.len()
        invariant
            i <= cs@.len(),
            cs@ == content@,
            keep == (|l: Seq<char>| l.len() > 0),
            tr == (|l: Seq<char>| trim_spec(l)),
            split_lines(cs@.take(i as int)).len() >= 1,
            line@ == split_lines(cs@.take(i as int)).last(),
            texts(out@) == split_lines(cs@.take(i as int)).drop_last().map_values(tr).filter(keep),
        decreases cs.len() - i,
    {
        let c = cs[i];
        let ghost pre = cs@.take(i as int);
        let ghost p = split_lines(pre);
        proof {
            assert(cs@.take(i + 1).drop_last() =~= pre);
            assert(cs@.take(i + 1).last() == c);
            lemma_split_lines_nonempty(pre);
        }
        if c == '\n' {
            let t = trim_chars(line.as_slice());
            proof {
                assert(split_lines(cs@.take(i + 1)) == p.push(Seq::<char>::empty()));
                assert(p.push(Seq::<char>::empty()).drop_last() =~= p);
                assert(p =~= p.drop_last().push(p.last()));
                assert(p.drop_last().push(p.last()).map_values(tr) =~= p.drop_last().map_values(tr).push(trim_spec(p.last())));
                p.drop_last().map_values(tr).lemma_filter_push(trim_spec(p.last()), keep);
            }
            if t.len() > 0 {
                let ghost before = texts(out@);
                out.push(string_of(t.as_slice()));
                assert(texts(out@) =~= before.push(t@));
            }
            line = Vec::new();
            assert(line@ =~= split_lines(cs@.take(i + 1)).last());
        } else {
            line.push(c);
            proof {
                assert(split_lines(cs@.take(i + 1)) == p.update(p.len() - 1, p.last().push(c)));
                assert(p.update(p.len() - 1, p.last().push(c)).drop_last() =~= p.drop_last());
            }
        }
        i += 1;
    }
    assert(cs@.take(i as int) =~= cs@);
    let ghost p = split_lines(cs@);
    let t = trim_chars(line.as_slice());
    proof {
        assert(p =~= p.drop_last().push(p.last()));
        assert(p.drop_last().push(p.last()).map_values(tr) =~= p.drop_last().map_values(tr).push(trim_spec(p.last())));
        p.drop_last().map_values(tr).lemma_filter_push(trim_spec(p.last()), keep);
    }
    if t.len() > 0 {
        let ghost before = texts(out@);
        out.push(string_of(t.as_slice()));
        assert(texts(out@) =~= before.push(t@));
    }
    out
}

/// The text of a recent-documents file: one entry per line.
pub fn recents_text(list: &Vec<String>) -> (r: String)
    ensures
        r@ == joined_lines(texts(list@)),
{
    let mut out = String::new();
    let mut i: usize = 0;
    assert(texts(list@).take(0) =~= Seq::<Seq<char>>::empty());
    while i < list.len()
        invariant
            i <= list@.len(),
            out@ == joined_lines(texts(list@).take(i as int)),
        decreases list.len() - i,
    {
        let ghost pre = texts(list@).take(i as int);
        assert(texts(list@).take(i + 1).drop_last() =~= pre);
        if i > 0 {
            push_char(&mut out, '\n');
        }
        push_text(&mut out, list[i].as_str());
        proof {
            if i == 0 {
                assert(out@ =~= texts(list@).take(1)[0]);
            } else {
                assert(out@ =~= joined_lines(pre) + seq!['\n'] + list@[i as int]@);
            }
        }
        i += 1;
    }
    assert(texts(list@).take(i as int) =~= texts(list@));
    out
}

proof fn lemma_split_joined(v: Seq<Seq<char>>)
    requires
        v.len() >= 1,
        forall|i: int| 0 <= i < v.len() ==> !(#[trigger] v[i]).contains('\n'),
    ensures
        split_lines(joined_lines(v)) == v,
    decreases v.len(),
{
    if v.len() == 1 {
        lemma_split_plain(v[0]);
        assert(split_lines(v[0]) =~= v);
    } else {
        let w = v.drop_last();
        assert forall|i: int| 0 <= i < w.len() implies !(#[trigger] w[i]).contains('\n') by {
            assert(w[i] == v[i]);
        }
        lemma_split_joined(w);
        lemma_split_append(joined_lines(w) + seq!['\n'], v.last());
        assert((joined_lines(w) + seq!['\n']).drop_last() =~= joined_lines(w));
        assert(split_lines(joined_lines(w) + seq!['\n']) =~= w.push(Seq::empty()));
        assert(joined_lines(v) == joined_lines(w) + seq!['\n'] + v.last());
        assert(w.push(Seq::empty()).update(w.len() as int, v.last()) =~= v);
    }
}

/// A text without line breaks is one piece.
proof fn lemma_split_plain(t: Seq<char>)
    requires
        !t.contains('\n'),
    ensures
        split_lines(t) == seq![t],
    decreases t.len(),
{
    if t.len() == 0 {
        assert(t =~= Seq::<char>::empty());
    } else {
        let d = t.drop_last();
        assert(!d.contains('\n')) by {
            if d.contains('\n') {
                let k = choose|k: int| 0 <= k < d.len() && d[k] == '\n';
                assert(t[k] == '\n');
            }
        }
        lemma_split_plain(d);
        assert(t[t.len() - 1] != '\n');
        assert(d.push(t.last()) =~= t);
        assert(split_lines(t) == seq![d].update(0, d.push(t.last())));
        assert(seq![d].update(0, t) =~= seq![t]);
    }
}

/// Appending a text without line breaks extends the last piece.
proof fn lemma_split_append(s: Seq<char>, t: Seq<char>)
    requires
        !t.contains('\n'),
    ensures
        split_lines(s + t) == split_lines(s).update(split_lines(s).len() - 1, split_lines(s).last() + t),
    decreases t.len(),
{
    lemma_split_lines_nonempty(s);
    if t.len() == 0 {
        assert(s + t =~= s);
        assert(split_lines(s).last() + t =~= split_lines(s).last());
        assert(split_lines(s).update(split_lines(s).len() - 1, split_lines(s).last()) =~= split_lines(s));
    } else {
        assert(!t.drop_last().contains('\n')) by {
            if t.drop_last().contains('\n') {
                let k = choose|k: int| 0 <= k < t.drop_last().len() && t.drop_last()[k] == '\n';
                assert(t[k] == '\n');
            }
        }
        lemma_split_append(s, t.drop_last());
        assert((s + t).drop_last() =~= s + t.drop_last());
        assert((s + t).last() == t.last());
        assert(t[t.len() - 1] != '\n');
        let p = split_lines(s);
        let q = p.update(p.len() - 1, p.last() + t.drop_last());
        assert(split_lines(s + t.drop_last()) == q);
        assert(q.len() == p.len());
        assert(q.last() == p.last() + t.drop_last());
        assert((p.last() + t.drop_last()).push(t.last()) =~= p.last() + t);
        assert(split_lines(s + t) == q.update(q.len() - 1, q.last().push(t.last())));
        assert(q.update(p.len() - 1, p.last() + t) =~= p.update(p.len() - 1, p.last() + t));
    }
}

proof fn lemma_trim_clean(l: Seq<char>)
    requires
        l.len() > 0,
        !is_white_space(l[0]),
        !is_white_space(l.last()),
    ensures
        trim_spec(l) == l,
{
    assert(trim_front(l) == l);
    assert(trim_back(l) == l);
}

/// Writing a recent-documents list and reading the file back gives the
/// list, when its entries are non-empty, have no line breaks and neither
/// start nor end with white space.
pub proof fn lemma_recents_read_back(v: Seq<Seq<char>>)
    requires
        forall|i: int| 0 <= i < v.len() ==> {
            &&& (#[trigger] v[i]).len() > 0
            &&& !v[i].contains('\n')
            &&& !is_white_space(v[i][0])
            &&& !is_white_space(v[i].last())
        },
    ensures
        recent_entries_spec(joined_lines(v)) == v,
{
    let keep = |l: Seq<char>| l.len() > 0;
    let tr = |l: Seq<char>| trim_spec(l);
    if v.len() == 0 {
        assert(split_lines(Seq::<char>::empty()) =~= seq![Seq::<char>::empty()]);
        assert(seq![Seq::<char>::empty()].map_values(tr) =~= seq![trim_spec(Seq::<char>::empty())]);
        assert(trim_front(Seq::<char>::empty()) == Seq::<char>::empty());
        assert(trim_spec(Seq::<char>::empty()) =~= Seq::<char>::empty());
        assert(seq![Seq::<char>::empty()].filter(keep) =~= Seq::<Seq<char>>::empty()) by {
            Seq::<Seq<char>>::empty().lemma_filter_push(Seq::<char>::empty(), keep);
            assert(Seq::<Seq<char>>::empty().push(Seq::<char>::empty()) =~= seq![Seq::<char>::empty()]);
        }
    } else {
        lemma_split_joined(v);
        assert forall|i: int| 0 <= i < v.len() implies #[trigger] trim_spec(v[i]) == v[i] by {
            lemma_trim_clean(v[i]);
        }
        assert(v.map_values(tr) =~= v);
        lemma_filter_all(v, keep);
    }
}

proof fn lemma_filter_all(v: Seq<Seq<char>>, keep: spec_fn(Seq<char>) -> bool)
    requires
        forall|i: int| 0 <= i < v.len() ==> keep(#[trigger] v[i]),
    ensures
        v.filter(keep) == v,
    decreases v.len(),
{
    if v.len() > 0 {
        lemma_filter_all(v.drop_last(), keep);
        v.drop_last().lemma_filter_push(v.last(), keep);
        assert(v.drop_last().push(v.last()) =~= v);
    }
}

} // verus!
