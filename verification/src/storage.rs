use vstd::prelude::*;
use vstd::seq_lib::*;
use vstd::set_lib::{lemma_int_range, lemma_len_subset, lemma_map_size, lemma_map_size_bound,
    set_int_range};
use vstd::arithmetic::div_mod::{lemma_fundamental_div_mod, lemma_mod_bound};
use vstd::relations::injective_on;
use crate::page::{Page, PageV1, WeekPage, WeekPageV1};
use crate::text::{chars_to_string, digit_char, digit_to_char};

verus! {

/// The pages of a shard that may or may not exist on disk yet.
pub open spec fn pages_of(week_page: Option<WeekPage>) -> Seq<Page> {
    match week_page {
        Some(w) => w.pages@,
        None => Seq::empty(),
    }
}

/// Index of the first page whose `created_at` equals `t`, or -1 when none
/// does. `created_at` is the local replace key of a write: a page written
/// with an already-present creation time replaces that page.
pub open spec fn first_created_pos(pages: Seq<Page>, t: crate::time::Timestamp) -> int
    decreases pages.len(),
{
    if pages.len() == 0 {
        -1
    } else if pages[0].created_at == t {
        0
    } else {
        let r = first_created_pos(pages.drop_first(), t);
        if r < 0 {
            -1
        } else {
            1 + r
        }
    }
}

pub proof fn lemma_first_created_pos(pages: Seq<Page>, t: crate::time::Timestamp)
    ensures
        ({
            let r = first_created_pos(pages, t);
            &&& -1 <= r < pages.len()
            &&& r == -1 ==> forall|j: int|
                0 <= j < pages.len() ==> (#[trigger] pages[j]).created_at != t
            &&& r >= 0 ==> pages[r].created_at == t && (forall|j: int|
                0 <= j < r ==> (#[trigger] pages[j]).created_at != t)
        }),
    decreases pages.len(),
{
    if pages.len() == 0 {
    } else if pages[0].created_at == t {
    } else {
        lemma_first_created_pos(pages.drop_first(), t);
        assert forall|j: int| 1 <= j < pages.len() implies pages[j] == pages.drop_first()[j - 1] by {}
    }
}

/// The pages of a shard after writing `page` into it: the first page with
/// the same creation time is replaced in place, otherwise `page` is appended.
pub open spec fn spec_write_pages(pages: Seq<Page>, page: Page) -> Seq<Page> {
    let i = first_created_pos(pages, page.created_at);
    if i < 0 {
        pages.push(page)
    } else {
        pages.update(i, page)
    }
}

fn position_same_created(pages: &Vec<Page>, t: &crate::time::Timestamp) -> (r: Option<usize>)
    ensures
        match r {
            Some(i) => i < pages@.len() && pages@[i as int].created_at == *t && (forall|j: int|
                0 <= j < i ==> (#[trigger] pages@[j]).created_at != *t),
            None => forall|j: int|
                0 <= j < pages@.len() ==> (#[trigger] pages@[j]).created_at != *t,
        },
{
    let mut i: usize = 0;
    while i < pages.len()
        invariant
            i <= pages@.len(),
            forall|j: int| 0 <= j < i ==> (#[trigger] pages@[j]).created_at != *t,
        decreases pages@.len() - i,
    {
        let p = &pages[i];
        if p.created_at == *t {
            return Some(i);
        }
        i += 1;
    }
    None
}

/// Writes a page into its weekly shard (a missing shard starts empty).
/// Any write invalidates the shard's synchronized state, so `uploaded_at`
/// comes back cleared; the caller must also record the shard's filename as
/// dirty and persist the returned shard as a whole document.
pub fn write(week_page: Option<WeekPage>, page: Page) -> (r: WeekPage)
    ensures
        r.uploaded_at is None,
        r.pages@ == spec_write_pages(pages_of(week_page), page),
{
    let mut wp = match week_page {
        Some(w) => w,
        None => WeekPage::new(),
    };
    wp.uploaded_at = None;
    let ghost old_pages = wp.pages@;
    proof {
        lemma_first_created_pos(old_pages, page.created_at);
    }
    match position_same_created(&wp.pages, &page.created_at) {
        Some(i) => {
            wp.pages.remove(i);
            wp.pages.insert(i, page);
            proof {
                assert(first_created_pos(old_pages, page.created_at) == i as int);
                assert(wp.pages@ =~= old_pages.update(i as int, page));
            }
        },
        None => {
            wp.pages.push(page);
            proof {
                assert(first_created_pos(old_pages, page.created_at) == -1);
            }
        },
    }
    wp
}

/// Replace-on-same-timestamp: two pages written with one creation time into
/// an empty shard leave exactly one page, holding the second write's content.
pub proof fn lemma_write_replaces_on_same_timestamp(p1: Page, p2: Page)
    requires
        p1.created_at == p2.created_at,
    ensures
        spec_write_pages(spec_write_pages(Seq::empty(), p1), p2) =~= seq![p2],
{
    let once = spec_write_pages(Seq::empty(), p1);
    assert(first_created_pos(Seq::empty(), p1.created_at) == -1);
    assert(once =~= seq![p1]);
    assert(first_created_pos(once, p2.created_at) == 0);
}

/// Whether some page in `pages` carries the identifier `id`.
pub open spec fn has_page_id(pages: Seq<Page>, id: Seq<char>) -> bool {
    exists|i: int| 0 <= i < pages.len() && (#[trigger] pages[i]).id@ == id
}

/// The merge of a local and a remote copy of one shard: every remote page
/// unchanged, followed by the local pages whose id the remote copy lacks.
/// A page edited on both sides keeps the remote content.
pub open spec fn spec_integrate(local: Seq<Page>, remote: Seq<Page>) -> Seq<Page> {
    remote + local.filter(|p: Page| !has_page_id(remote, p.id@))
}

fn has_id_within(pages: &Vec<Page>, upto: usize, id: &String) -> (r: bool)
    requires
        upto <= pages@.len(),
    ensures
        r == has_page_id(pages@.take(upto as int), id@),
{
    let mut i: usize = 0;
    while i < upto
        invariant
            i <= upto <= pages@.len(),
            forall|j: int| 0 <= j < i ==> (#[trigger] pages@[j]).id@ != id@,
        decreases upto - i,
    {
        let p = &pages[i];
        if p.id.eq(id) {
            assert(pages@.take(upto as int)[i as int].id@ == id@);
            return true;
        }
        i += 1;
    }
    assert forall|j: int| 0 <= j < upto implies (#[trigger] pages@.take(upto as int)[j]).id@ != id@ by {
        assert(pages@.take(upto as int)[j] == pages@[j]);
    }
    false
}

/// The id-keyed union merge applied during reconciliation: starts from the
/// remote shard and appends every local page whose id the remote side does
/// not have. For an id present on both sides the remote content silently
/// wins; `uploaded_at` is taken from the remote shard.
pub fn integrate(wpage1: WeekPage, wpage2: WeekPage) -> (r: WeekPage)
    ensures
        r.uploaded_at == wpage2.uploaded_at,
        r.pages@ == spec_integrate(wpage1.pages@, wpage2.pages@),
{
    let ghost pred = |p: Page| !has_page_id(wpage2.pages@, p.id@);
    let mut new_wpage = wpage2;
    let ghost remote = new_wpage.pages@;
    let remote_len = new_wpage.pages.len();
    let mut local = wpage1.pages;
    let ghost orig_local = local@;
    let total = local.len();
    let mut k: usize = 0;
    proof {
        reveal(Seq::filter);
        assert(orig_local.take(0).filter(pred) =~= Seq::<Page>::empty());
        assert(new_wpage.pages@ =~= remote + orig_local.take(0).filter(pred));
    }
    while local.len() > 0
        invariant
            k + local@.len() == orig_local.len(),
            orig_local.len() == total,
            local@ =~= orig_local.skip(k as int),
            remote_len == remote.len(),
            new_wpage.pages@ =~= remote + orig_local.take(k as int).filter(pred),
            new_wpage.pages@.take(remote_len as int) =~= remote,
            new_wpage.uploaded_at == wpage2.uploaded_at,
            pred == (|p: Page| !has_page_id(remote, p.id@)),
        decreases local@.len(),
    {
        let page = local.remove(0);
        assert(page == orig_local[k as int]);
        let ghost before = new_wpage.pages@;
        let found = has_id_within(&new_wpage.pages, remote_len, &page.id);
        proof {
            reveal(Seq::filter);
            assert(before.take(remote_len as int) == remote);
            assert(found == has_page_id(remote, page.id@));
            assert(orig_local.take(k as int + 1) =~= orig_local.take(k as int).push(page));
            assert(orig_local.take(k as int).push(page) =~= orig_local.take(k as int) + seq![
                page,
            ]);
            Seq::filter_distributes_over_add(orig_local.take(k as int), seq![page], pred);
            assert(seq![page].drop_last() =~= Seq::<Page>::empty());
            assert(Seq::<Page>::empty().filter(pred) =~= Seq::<Page>::empty());
            if pred(page) {
                assert(seq![page].filter(pred) =~= seq![page]);
            } else {
                assert(seq![page].filter(pred) =~= Seq::<Page>::empty());
            }
        }
        if !found {
            new_wpage.pages.push(page);
            proof {
                assert(pred(page));
                assert(new_wpage.pages@ =~= remote + orig_local.take(k as int + 1).filter(pred));
            }
        } else {
            proof {
                assert(!pred(page));
                assert(new_wpage.pages@ =~= remote + orig_local.take(k as int + 1).filter(pred));
            }
        }
        k += 1;
        proof {
            assert(new_wpage.pages@.take(remote_len as int) =~= remote);
            assert(local@ =~= orig_local.skip(k as int));
        }
    }
    proof {
        assert(orig_local.take(orig_local.len() as int) =~= orig_local);
    }
    new_wpage
}

/// The merge is a conflict-biased union: the result keeps every remote page
/// verbatim in place, appends exactly the local pages whose id is absent
/// remotely, and holds nothing else.
pub proof fn lemma_integrate_is_biased_union(local: Seq<Page>, remote: Seq<Page>)
    ensures
        ({
            let r = spec_integrate(local, remote);
            &&& r.len() == remote.len() + local.filter(|p: Page| !has_page_id(remote, p.id@)).len()
            &&& forall|i: int| 0 <= i < remote.len() ==> r[i] == remote[i]
            &&& forall|i: int|
                remote.len() <= i < r.len() ==> local.contains(#[trigger] r[i]) && !has_page_id(
                    remote,
                    r[i].id@,
                )
            &&& forall|j: int|
                0 <= j < local.len() && !has_page_id(remote, (#[trigger] local[j]).id@)
                    ==> r.contains(local[j])
        }),
{
    let pred = |p: Page| !has_page_id(remote, p.id@);
    let r = spec_integrate(local, remote);
    let f = local.filter(pred);
    assert forall|i: int| remote.len() <= i < r.len() implies local.contains(#[trigger] r[i])
        && !has_page_id(remote, r[i].id@) by {
        let fi = i - remote.len();
        assert(r[i] == f[fi]);
        local.lemma_filter_pred(pred, fi);
        lemma_filter_subset(local, pred, fi);
    }
    assert forall|j: int|
        0 <= j < local.len() && !has_page_id(remote, (#[trigger] local[j]).id@) implies r.contains(
        local[j],
    ) by {
        local.lemma_filter_contains(pred, j);
        let fi = choose|fi: int| 0 <= fi < f.len() && f[fi] == local[j];
        assert(r[remote.len() + fi] == local[j]);
    }
}

/// Errors of the store core. Reconciliation treats both as invariant
/// violations: the run must abort rather than guess a remedy.
#[derive(Clone, Copy, PartialEq, Eq, Structural, Debug)]
pub enum StoreError {
    /// A filename recorded as edited does not exist locally.
    EditedFileMissingLocally,
    /// A local/remote/edited combination outside the reconciliation table.
    InvalidFileState,
}

/// Whether some string in `names` reads `n`.
pub open spec fn contains_name(names: Seq<String>, n: Seq<char>) -> bool {
    exists|i: int| 0 <= i < names.len() && (#[trigger] names[i])@ == n
}

/// No two strings in `names` read the same.
pub open spec fn distinct_names(names: Seq<String>) -> bool {
    forall|i: int, j: int|
        0 <= i < j < names.len() ==> (#[trigger] names[i])@ != (#[trigger] names[j])@
}

fn name_in(names: &Vec<String>, name: &String) -> (r: bool)
    ensures
        r == contains_name(names@, name@),
{
    let mut i: usize = 0;
    while i < names.len()
        invariant
            i <= names@.len(),
            forall|j: int| 0 <= j < i ==> (#[trigger] names@[j])@ != name@,
        decreases names@.len() - i,
    {
        if names[i].eq(name) {
            return true;
        }
        i += 1;
    }
    false
}

/// The persisted dirty set: the shard and asset filenames touched since the
/// last successful reconciliation, each held at most once. Every recorded
/// filename must exist locally; reconciliation aborts otherwise.
pub struct EditedEntries {
    pub page_files: Vec<String>,
    pub image_files: Vec<String>,
}

impl EditedEntries {
    pub open spec fn wf(self) -> bool {
        distinct_names(self.page_files@) && distinct_names(self.image_files@)
    }

    /// The empty dirty set, also what a store without a persisted dirty-set
    /// document starts from.
    pub fn new() -> (e: EditedEntries)
        ensures
            e.page_files@ =~= Seq::<String>::empty(),
            e.image_files@ =~= Seq::<String>::empty(),
            e.wf(),
    {
        EditedEntries { page_files: Vec::new(), image_files: Vec::new() }
    }

    /// Empties both sets, as a successful reconciliation does.
    pub fn clear(&mut self)
        ensures
            final(self).page_files@ =~= Seq::<String>::empty(),
            final(self).image_files@ =~= Seq::<String>::empty(),
            final(self).wf(),
    {
        self.page_files.clear();
        self.image_files.clear();
    }

    /// Records a shard filename as dirty; a name already present stays
    /// recorded once.
    pub fn insert_page_file(&mut self, name: String) -> (added: bool)
        requires
            old(self).wf(),
        ensures
            final(self).wf(),
            final(self).image_files@ == old(self).image_files@,
            added == !contains_name(old(self).page_files@, name@),
            added ==> final(self).page_files@ == old(self).page_files@.push(name),
            !added ==> final(self).page_files@ == old(self).page_files@,
    {
        if name_in(&self.page_files, &name) {
            false
        } else {
            self.page_files.push(name);
            true
        }
    }

    /// Records an asset filename as dirty; a name already present stays
    /// recorded once.
    pub fn insert_image_file(&mut self, name: String) -> (added: bool)
        requires
            old(self).wf(),
        ensures
            final(self).wf(),
            final(self).page_files@ == old(self).page_files@,
            added == !contains_name(old(self).image_files@, name@),
            added ==> final(self).image_files@ == old(self).image_files@.push(name),
            !added ==> final(self).image_files@ == old(self).image_files@,
    {
        if name_in(&self.image_files, &name) {
            false
        } else {
            self.image_files.push(name);
            true
        }
    }
}

/// The tri-state of one filename during reconciliation: whether it exists in
/// the local directory, whether the remote listing names it, and whether the
/// dirty set records it as edited.
#[derive(Clone, Copy, PartialEq, Eq, Structural, Debug)]
pub struct FileState {
    pub exists_on_local: bool,
    pub exists_on_remote: bool,
    pub is_edited: bool,
}

/// The action reconciliation takes for one filename.
#[derive(Clone, Copy, PartialEq, Eq, Structural, Debug)]
pub enum SyncAction {
    /// Remote-only, never touched locally: fetch it.
    Download,
    /// Local-only and edited: send it.
    Upload,
    /// Present and newer on both sides: merge, then send and store.
    Merge,
}

/// The three combinations the reconciliation table allows in a well-formed
/// store; everything else is an invariant violation.
pub open spec fn legal_state(s: FileState) -> bool {
    ||| s == (FileState { exists_on_local: false, exists_on_remote: true, is_edited: false })
    ||| s == (FileState { exists_on_local: true, exists_on_remote: false, is_edited: true })
    ||| s == (FileState { exists_on_local: true, exists_on_remote: true, is_edited: true })
}

/// The reconciliation table for shard files.
pub open spec fn spec_classify_page(s: FileState) -> Result<SyncAction, StoreError> {
    if s == (FileState { exists_on_local: false, exists_on_remote: true, is_edited: false }) {
        Ok(SyncAction::Download)
    } else if s == (FileState { exists_on_local: true, exists_on_remote: false, is_edited: true }) {
        Ok(SyncAction::Upload)
    } else if s == (FileState { exists_on_local: true, exists_on_remote: true, is_edited: true }) {
        Ok(SyncAction::Merge)
    } else {
        Err(StoreError::InvalidFileState)
    }
}

/// The reconciliation table for asset files: no content merge exists, the
/// local copy is authoritative when both sides changed, so the merge case
/// degenerates to an upload.
pub open spec fn spec_classify_image(s: FileState) -> Result<SyncAction, StoreError> {
    if s == (FileState { exists_on_local: false, exists_on_remote: true, is_edited: false }) {
        Ok(SyncAction::Download)
    } else if s == (FileState { exists_on_local: true, exists_on_remote: false, is_edited: true }) {
        Ok(SyncAction::Upload)
    } else if s == (FileState { exists_on_local: true, exists_on_remote: true, is_edited: true }) {
        Ok(SyncAction::Upload)
    } else {
        Err(StoreError::InvalidFileState)
    }
}

/// Decides what reconciliation does with one shard filename; any combination
/// outside the table is reported, never silently skipped.
pub fn classify_page_action(state: FileState) -> (r: Result<SyncAction, StoreError>)
    ensures
        r == spec_classify_page(state),
        r is Ok <==> legal_state(state),
{
    match (state.exists_on_local, state.exists_on_remote, state.is_edited) {
        (false, true, false) => Ok(SyncAction::Download),
        (true, false, true) => Ok(SyncAction::Upload),
        (true, true, true) => Ok(SyncAction::Merge),
        _ => Err(StoreError::InvalidFileState),
    }
}

/// Decides what reconciliation does with one asset filename; any combination
/// outside the table is reported, never silently skipped.
pub fn classify_image_action(state: FileState) -> (r: Result<SyncAction, StoreError>)
    ensures
        r == spec_classify_image(state),
        r is Ok <==> legal_state(state),
{
    match (state.exists_on_local, state.exists_on_remote, state.is_edited) {
        (false, true, false) => Ok(SyncAction::Download),
        (true, false, true) => Ok(SyncAction::Upload),
        (true, true, true) => Ok(SyncAction::Upload),
        _ => Err(StoreError::InvalidFileState),
    }
}

/// The tri-state a filename really has, given the local listing, the dirty
/// set, and the remote listing.
pub open spec fn true_state(
    local: Seq<String>,
    edited: Seq<String>,
    remote: Seq<String>,
    f: Seq<char>,
) -> FileState {
    FileState {
        exists_on_local: contains_name(local, f),
        exists_on_remote: contains_name(remote, f),
        is_edited: contains_name(edited, f),
    }
}

/// The filenames reconciliation acts on: remote files that are missing or
/// edited locally, and edited files the remote side lacks. A file present on
/// both sides and untouched locally needs no action and is left out.
pub open spec fn in_file_map(
    local: Seq<String>,
    edited: Seq<String>,
    remote: Seq<String>,
    f: Seq<char>,
) -> bool {
    ||| contains_name(remote, f) && (!contains_name(local, f) || contains_name(edited, f))
    ||| contains_name(edited, f) && !contains_name(remote, f)
}

/// Whether the association list `m` carries the key `f`.
pub open spec fn map_has_key(m: Seq<(String, FileState)>, f: Seq<char>) -> bool {
    exists|i: int| 0 <= i < m.len() && (#[trigger] m[i]).0@ == f
}

/// A key is in a grown association list exactly when it is in the old list
/// or names the appended entry.
proof fn lemma_map_key_after_push(m: Seq<(String, FileState)>, x: (String, FileState), f: Seq<char>)
    ensures
        map_has_key(m.push(x), f) <==> (map_has_key(m, f) || x.0@ == f),
{
    if map_has_key(m.push(x), f) {
        let k = choose|k: int| 0 <= k < m.push(x).len() && (#[trigger] m.push(x)[k]).0@ == f;
        if k < m.len() {
            assert(m[k] == m.push(x)[k]);
        }
    }
    if map_has_key(m, f) {
        let k = choose|k: int| 0 <= k < m.len() && (#[trigger] m[k]).0@ == f;
        assert(m.push(x)[k] == m[k]);
    }
    if x.0@ == f {
        assert(m.push(x)[m.len() as int].0@ == f);
    }
}

/// Classifies every filename that needs action into its tri-state: exactly
/// the names `in_file_map` describes, each once, each with its true state.
/// A filename recorded as edited but missing locally is an invariant
/// violation and aborts the classification. The inputs stand for sets, so
/// each listing holds a name at most once.
pub fn get_file_map(
    local_files: &Vec<String>,
    edited_files: &Vec<String>,
    files_on_remote: &Vec<String>,
) -> (r: Result<Vec<(String, FileState)>, StoreError>)
    requires
        distinct_names(edited_files@),
        distinct_names(files_on_remote@),
    ensures
        match r {
            Ok(m) => {
                &&& forall|k: int|
                    0 <= k < m@.len() ==> (#[trigger] m@[k]).1 == true_state(
                        local_files@,
                        edited_files@,
                        files_on_remote@,
                        m@[k].0@,
                    )
                &&& forall|k: int|
                    0 <= k < m@.len() ==> in_file_map(
                        local_files@,
                        edited_files@,
                        files_on_remote@,
                        (#[trigger] m@[k]).0@,
                    )
                &&& forall|f: Seq<char>|
                    #[trigger] in_file_map(local_files@, edited_files@, files_on_remote@, f)
                        ==> map_has_key(m@, f)
                &&& forall|k1: int, k2: int|
                    0 <= k1 < k2 < m@.len() ==> (#[trigger] m@[k1]).0@ != (#[trigger] m@[k2]).0@
                &&& forall|j: int|
                    0 <= j < edited_files@.len() ==> contains_name(
                        local_files@,
                        (#[trigger] edited_files@[j])@,
                    )
            },
            Err(e) => {
                &&& e == StoreError::EditedFileMissingLocally
                &&& exists|j: int|
                    0 <= j < edited_files@.len() && !contains_name(
                        local_files@,
                        (#[trigger] edited_files@[j])@,
                    )
            },
        },
{
    let ghost localv = local_files@;
    let ghost editedv = edited_files@;
    let ghost remotev = files_on_remote@;
    let mut result: Vec<(String, FileState)> = Vec::new();

    let mut i: usize = 0;
    while i < files_on_remote.len()
        invariant
            i <= remotev.len(),
            localv == local_files@,
            editedv == edited_files@,
            remotev == files_on_remote@,
            distinct_names(editedv),
            distinct_names(remotev),
            forall|k: int|
                0 <= k < result@.len() ==> (#[trigger] result@[k]).1 == true_state(
                    localv,
                    editedv,
                    remotev,
                    result@[k].0@,
                ),
            forall|k: int|
                0 <= k < result@.len() ==> contains_name(remotev, (#[trigger] result@[k]).0@) && (
                !contains_name(localv, result@[k].0@) || contains_name(editedv, result@[k].0@)),
            forall|j: int|
                0 <= j < i && (!contains_name(localv, (#[trigger] remotev[j])@) || contains_name(
                    editedv,
                    remotev[j]@,
                )) ==> map_has_key(result@, remotev[j]@),
            forall|j: int|
                0 <= j < i ==> !(contains_name(editedv, (#[trigger] remotev[j])@)
                    && !contains_name(localv, remotev[j]@)),
            forall|j: int|
                i <= j < remotev.len() ==> !map_has_key(result@, (#[trigger] remotev[j])@),
            forall|w: int|
                0 <= w < editedv.len() && !contains_name(remotev, (#[trigger] editedv[w])@)
                    ==> !map_has_key(result@, editedv[w]@),
            forall|k1: int, k2: int|
                0 <= k1 < k2 < result@.len() ==> (#[trigger] result@[k1]).0@ != (
                #[trigger] result@[k2]).0@,
        decreases remotev.len() - i,
    {
        let f = &files_on_remote[i];
        let on_local = name_in(local_files, f);
        let on_edited = name_in(edited_files, f);
        let ghost prev = result@;
        let mut pushed = false;
        if on_local {
            if on_edited {
                let state = FileState { exists_on_local: true, exists_on_remote: true, is_edited: true };
                result.push((f.clone(), state));
                pushed = true;
            }
        } else {
            if on_edited {
                proof {
                    let j = choose|j: int|
                        0 <= j < editedv.len() && (#[trigger] editedv[j])@ == remotev[i as int]@;
                }
                return Err(StoreError::EditedFileMissingLocally);
            }
            let state = FileState { exists_on_local: false, exists_on_remote: true, is_edited: false };
            result.push((f.clone(), state));
            pushed = true;
        }
        proof {
            assert(contains_name(remotev, remotev[i as int]@));
            if pushed {
                let x = (result@[result@.len() - 1].0, result@[result@.len() - 1].1);
                assert(result@ =~= prev.push(result@[result@.len() - 1]));
                assert forall|g: Seq<char>| #[trigger] map_has_key(result@, g) <==> (map_has_key(
                    prev,
                    g,
                ) || remotev[i as int]@ == g) by {
                    lemma_map_key_after_push(prev, result@[result@.len() - 1], g);
                }
            }
            assert(map_has_key(result@, remotev[i as int]@) || !(!contains_name(
                localv,
                remotev[i as int]@,
            ) || contains_name(editedv, remotev[i as int]@)));
            assert forall|j: int|
                i + 1 <= j < remotev.len() implies !map_has_key(
                result@,
                (#[trigger] remotev[j])@,
            ) by {
                assert(remotev[i as int]@ != remotev[j]@);
            }
            assert forall|w: int|
                0 <= w < editedv.len() && !contains_name(remotev, (#[trigger] editedv[w])@)
                    implies !map_has_key(result@, editedv[w]@) by {
                assert(remotev[i as int]@ != editedv[w]@);
            }
        }
        i += 1;
    }

    let ghost m1_len = result@.len() as int;

    let mut j: usize = 0;
    while j < edited_files.len()
        invariant
            j <= editedv.len(),
            localv == local_files@,
            editedv == edited_files@,
            remotev == files_on_remote@,
            distinct_names(editedv),
            distinct_names(remotev),
            0 <= m1_len <= result@.len(),
            forall|k: int|
                0 <= k < result@.len() ==> (#[trigger] result@[k]).1 == true_state(
                    localv,
                    editedv,
                    remotev,
                    result@[k].0@,
                ),
            forall|k: int|
                0 <= k < m1_len ==> contains_name(remotev, (#[trigger] result@[k]).0@) && (
                !contains_name(localv, result@[k].0@) || contains_name(editedv, result@[k].0@)),
            forall|k: int|
                m1_len <= k < result@.len() ==> contains_name(editedv, (#[trigger] result@[k]).0@)
                    && !contains_name(remotev, result@[k].0@) && contains_name(
                    localv,
                    result@[k].0@,
                ),
            forall|f: Seq<char>|
                contains_name(remotev, f) && (!contains_name(localv, f) || contains_name(
                    editedv,
                    f,
                )) ==> map_has_key(result@, f),
            forall|w: int|
                0 <= w < j ==> contains_name(localv, (#[trigger] editedv[w])@),
            forall|w: int|
                0 <= w < j && !contains_name(remotev, (#[trigger] editedv[w])@) ==> map_has_key(
                    result@,
                    editedv[w]@,
                ),
            forall|w: int|
                j <= w < editedv.len() && !contains_name(remotev, (#[trigger] editedv[w])@)
                    ==> !map_has_key(result@, editedv[w]@),
            forall|k1: int, k2: int|
                0 <= k1 < k2 < result@.len() ==> (#[trigger] result@[k1]).0@ != (
                #[trigger] result@[k2]).0@,
        decreases editedv.len() - j,
    {
        let f = &edited_files[j];
        let on_local = name_in(local_files, f);
        if !on_local {
            return Err(StoreError::EditedFileMissingLocally);
        }
        let on_remote = name_in(files_on_remote, f);
        let ghost prev = result@;
        if !on_remote {
            proof {
                assert(!map_has_key(result@, editedv[j as int]@));
                assert(contains_name(editedv, editedv[j as int]@));
                assert(contains_name(localv, editedv[j as int]@));
            }
            let state = FileState { exists_on_local: true, exists_on_remote: false, is_edited: true };
            result.push((f.clone(), state));
            proof {
                assert(result@ =~= prev.push(result@[result@.len() - 1]));
                assert forall|g: Seq<char>| #[trigger] map_has_key(result@, g) <==> (map_has_key(
                    prev,
                    g,
                ) || editedv[j as int]@ == g) by {
                    lemma_map_key_after_push(prev, result@[result@.len() - 1], g);
                }
                assert forall|w: int|
                    j + 1 <= w < editedv.len() && !contains_name(
                        remotev,
                        (#[trigger] editedv[w])@,
                    ) implies !map_has_key(result@, editedv[w]@) by {
                    assert(editedv[j as int]@ != editedv[w]@);
                }
            }
        }
        j += 1;
    }

    proof {
        assert forall|f: Seq<char>|
            #[trigger] in_file_map(localv, editedv, remotev, f) implies map_has_key(result@, f) by {
            if contains_name(editedv, f) && !contains_name(remotev, f) {
                let w = choose|w: int| 0 <= w < editedv.len() && (#[trigger] editedv[w])@ == f;
            }
        }
        assert forall|k: int| 0 <= k < result@.len() implies in_file_map(
            localv,
            editedv,
            remotev,
            (#[trigger] result@[k]).0@,
        ) by {
            if k < m1_len {
                assert(contains_name(remotev, result@[k].0@));
            } else {
                assert(contains_name(editedv, result@[k].0@) && !contains_name(
                    remotev,
                    result@[k].0@,
                ));
            }
        }
    }
    Ok(result)
}

/// Reconciliation classification completeness: in a well-formed store every
/// filename the classifier maps carries one of the three table-legal
/// tri-states, so neither per-kind action table rejects it.
pub proof fn lemma_file_map_states_legal(
    local: Seq<String>,
    edited: Seq<String>,
    remote: Seq<String>,
    f: Seq<char>,
)
    requires
        in_file_map(local, edited, remote, f),
        contains_name(edited, f) ==> contains_name(local, f),
    ensures
        legal_state(true_state(local, edited, remote, f)),
        spec_classify_page(true_state(local, edited, remote, f)) is Ok,
        spec_classify_image(true_state(local, edited, remote, f)) is Ok,
{
}

/// Everything a filter keeps comes from the original sequence.
proof fn lemma_filter_subset<A>(s: Seq<A>, pred: spec_fn(A) -> bool, i: int)
    requires
        0 <= i < s.filter(pred).len(),
    ensures
        s.contains(s.filter(pred)[i]),
    decreases s.len(),
{
    reveal(Seq::filter);
    let f = s.filter(pred);
    if s.len() > 0 {
        let fd = s.drop_last().filter(pred);
        if pred(s.last()) && i == f.len() - 1 {
            assert(f[i] == s.last());
            assert(s[s.len() - 1] == s.last());
        } else {
            assert(f[i] == fd[i]);
            lemma_filter_subset(s.drop_last(), pred, i);
            let j = choose|j: int| 0 <= j < s.drop_last().len() && s.drop_last()[j] == fd[i];
            assert(s[j] == fd[i]);
        }
    }
}

/// Decimal digits of a non-negative number, most significant first, without
/// leading zeros (zero itself shows one digit).
pub open spec fn dec_str(n: int) -> Seq<char>
    decreases n,
{
    if n < 10 {
        seq![digit_char(n)]
    } else {
        dec_str(n / 10).push(digit_char(n % 10))
    }
}

proof fn lemma_dec_str_len(n: int)
    requires
        n >= 0,
    ensures
        dec_str(n).len() >= 1,
        n < 10 <==> dec_str(n).len() == 1,
    decreases n,
{
    if n >= 10 {
        lemma_dec_str_len(n / 10);
    }
}

/// Distinct numbers show distinct digit strings.
proof fn lemma_dec_str_injective(a: int, b: int)
    requires
        a >= 0,
        b >= 0,
        dec_str(a) == dec_str(b),
    ensures
        a == b,
    decreases a,
{
    lemma_dec_str_len(a);
    lemma_dec_str_len(b);
    if a < 10 && b < 10 {
        assert(dec_str(a) =~= seq![digit_char(a)]);
        assert(dec_str(b) =~= seq![digit_char(b)]);
        assert(seq![digit_char(a)][0] == seq![digit_char(b)][0]);
        assert(digit_char(a) == digit_char(b));
        assert(a == b);
    } else if a >= 10 && b >= 10 {
        lemma_mod_bound(a, 10);
        lemma_mod_bound(b, 10);
        assert(dec_str(a).last() == digit_char(a % 10));
        assert(dec_str(b).last() == digit_char(b % 10));
        assert(a % 10 == b % 10);
        assert(dec_str(a).drop_last() == dec_str(a / 10));
        assert(dec_str(b).drop_last() == dec_str(b / 10));
        lemma_dec_str_injective(a / 10, b / 10);
        lemma_fundamental_div_mod(a, 10);
        lemma_fundamental_div_mod(b, 10);
    }
}

fn u32_to_string(n: u32) -> (r: String)
    ensures
        r@ == dec_str(n as int),
{
    let mut digits: Vec<char> = Vec::new();
    let mut m = n;
    proof {
        assert(dec_str(n as int) =~= dec_str(m as int) + digits@);
    }
    loop
        invariant_except_break
            dec_str(n as int) == dec_str(m as int) + digits@,
        ensures
            dec_str(n as int) == digits@,
        decreases m,
    {
        let ghost old_m = m as int;
        let ghost old_digits = digits@;
        let d = m % 10;
        let ch = digit_to_char(d);
        digits.insert(0, ch);
        proof {
            assert(digits@ =~= seq![ch] + old_digits);
            if old_m >= 10 {
                assert(dec_str(old_m) =~= dec_str(old_m / 10) + seq![digit_char(old_m % 10)]);
                assert(dec_str(old_m / 10) + (seq![ch] + old_digits) =~= dec_str(old_m)
                    + old_digits);
            } else {
                assert(dec_str(old_m) =~= seq![ch]);
                assert(seq![ch] + old_digits =~= dec_str(old_m) + old_digits);
            }
        }
        if m < 10 {
            break;
        }
        m = m / 10;
    }
    chars_to_string(&digits)
}

/// Name of a numbered backup directory: `<prefix>_<id>` in decimal.
pub open spec fn spec_backup_dir_path(prefix: Seq<char>, id: int) -> Seq<char> {
    prefix + "_"@ + dec_str(id)
}

/// Builds the name of the backup directory with the given number.
pub fn generate_backup_dir_path(prefix: &str, id: u32) -> (r: String)
    ensures
        r@ == spec_backup_dir_path(prefix@, id as int),
{
    let mut s = prefix.to_owned();
    s.append("_");
    let digits = u32_to_string(id);
    s.append(digits.as_str());
    proof {
        assert(s@ =~= spec_backup_dir_path(prefix@, id as int));
    }
    s
}

/// One prefix and two different numbers never name the same directory.
proof fn lemma_backup_path_injective(prefix: Seq<char>, a: int, b: int)
    requires
        a >= 0,
        b >= 0,
        spec_backup_dir_path(prefix, a) == spec_backup_dir_path(prefix, b),
    ensures
        a == b,
{
    let pa = spec_backup_dir_path(prefix, a);
    let pb = spec_backup_dir_path(prefix, b);
    let base = prefix.len() + "_"@.len();
    assert(dec_str(a) =~= dec_str(b)) by {
        assert(pa.len() == base + dec_str(a).len());
        assert(pb.len() == base + dec_str(b).len());
        assert forall|k: int| 0 <= k < dec_str(a).len() implies dec_str(a)[k] == dec_str(b)[k] by {
            assert(pa[base + k] == dec_str(a)[k]);
            assert(pb[base + k] == dec_str(b)[k]);
        }
    }
    lemma_dec_str_injective(a, b);
}

/// If every directory number below `hi` is taken by a name in `existing`,
/// there are at least `hi - 1` names: numbering by probing stays below the
/// directory count plus one.
proof fn lemma_backup_ids_bounded(existing: Seq<String>, prefix: Seq<char>, hi: int)
    requires
        hi >= 1,
        forall|j: int|
            1 <= j < hi ==> contains_name(existing, #[trigger] spec_backup_dir_path(prefix, j)),
    ensures
        hi - 1 <= existing.len(),
{
    let f = |j: int| spec_backup_dir_path(prefix, j);
    let xs = set_int_range(1, hi);
    lemma_int_range(1, hi);
    assert(injective_on(f, xs)) by {
        assert forall|a: int, b: int|
            xs.contains(a) && xs.contains(b) && #[trigger] f(a) == #[trigger] f(b) implies a
            == b by {
            lemma_backup_path_injective(prefix, a, b);
        }
    }
    let ys = xs.map(f);
    lemma_map_size(xs, ys, f);
    let vs = Set::new(|v: Seq<char>| contains_name(existing, v));
    assert forall|v: Seq<char>| ys.contains(v) implies vs.contains(v) by {
        let j = choose|j: int| xs.contains(j) && v == f(j);
        assert(contains_name(existing, f(j)));
    }
    let idxs = set_int_range(0, existing.len() as int);
    lemma_int_range(0, existing.len() as int);
    let g = |i: int| (existing[i])@;
    assert(vs =~= idxs.map(g)) by {
        assert forall|v: Seq<char>| vs.contains(v) implies idxs.map(g).contains(v) by {
            let i = choose|i: int| 0 <= i < existing.len() && (#[trigger] existing[i])@ == v;
            assert(idxs.contains(i) && v == g(i));
        }
        assert forall|v: Seq<char>| idxs.map(g).contains(v) implies vs.contains(v) by {
            let i = choose|i: int| idxs.contains(i) && v == g(i);
            assert(contains_name(existing, existing[i]@));
        }
    }
    lemma_map_size_bound(idxs, idxs.map(g), g);
    lemma_len_subset(ys, vs);
}

/// First unused backup directory: the name and number of the smallest `id`,
/// counted from one, whose `<prefix>_<id>` is not among the existing entries.
pub fn generate_backup_dir_path_not_exists(existing: &Vec<String>, prefix: &str) -> (r: (
    String,
    u32,
))
    requires
        existing@.len() + 2 < u32::MAX,
    ensures
        r.1 >= 1,
        r.0@ == spec_backup_dir_path(prefix@, r.1 as int),
        !contains_name(existing@, r.0@),
        forall|j: int|
            1 <= j < r.1 ==> contains_name(existing@, #[trigger] spec_backup_dir_path(prefix@, j)),
{
    let mut id: u32 = 1;
    loop
        invariant
            1 <= id,
            id as int <= existing@.len() + 1,
            existing@.len() + 2 < u32::MAX,
            forall|j: int|
                1 <= j < id ==> contains_name(
                    existing@,
                    #[trigger] spec_backup_dir_path(prefix@, j),
                ),
        decreases existing@.len() + 1 - id,
    {
        let name = generate_backup_dir_path(prefix, id);
        if !name_in(existing, &name) {
            return (name, id);
        }
        proof {
            lemma_backup_ids_bounded(existing@, prefix@, id as int + 1);
        }
        id += 1;
    }
}

/// Stamps a shard as synchronized at the given time; the pages are untouched.
/// Reconciliation applies this right before uploading a shard.
pub fn mark_uploaded(wpage: WeekPage, uploaded_at: crate::time::Timestamp) -> (r: WeekPage)
    ensures
        r.pages@ == wpage.pages@,
        r.uploaded_at == Some(uploaded_at),
{
    WeekPage { pages: wpage.pages, uploaded_at: Some(uploaded_at) }
}

/// Relies on uuid's `Uuid::new_v4` and its `Display` form: a fresh random
/// identifier, shown as the 36-character hyphenated lowercase text.
#[verifier::external_body]
fn fresh_page_id() -> (r: String)
    ensures
        r@.len() == 36,
{
    uuid::Uuid::new_v4().to_string()
}

/// Upgrades one shard from the first on-disk schema to the current one:
/// every page keeps its content and timestamps and is assigned a fresh
/// random identifier. The upgrade is not idempotent: a second run over the
/// same data draws new identifiers again, so the caller must gate it by
/// comparing the stored schema version against the compiled one.
pub fn convert_week_page_v1_to_v2(wpage: WeekPageV1) -> (r: WeekPage)
    ensures
        r.uploaded_at == wpage.uploaded_at,
        r.pages@.len() == wpage.pages@.len(),
        forall|i: int|
            0 <= i < r.pages@.len() ==> {
                let p = #[trigger] r.pages@[i];
                let v = wpage.pages@[i];
                &&& p.title == v.title
                &&& p.text == v.text
                &&& p.hidden == v.hidden
                &&& p.created_at == v.created_at
                &&& p.updated_at == v.updated_at
                &&& p.id@.len() == 36
            },
{
    let mut old_pages = wpage.pages;
    let ghost orig = old_pages@;
    let total = old_pages.len();
    let mut pages: Vec<Page> = Vec::new();
    while old_pages.len() > 0
        invariant
            pages@.len() + old_pages@.len() == orig.len(),
            orig.len() == total,
            old_pages@ =~= orig.skip(pages@.len() as int),
            forall|i: int|
                0 <= i < pages@.len() ==> {
                    let p = #[trigger] pages@[i];
                    let v = orig[i];
                    &&& p.title == v.title
                    &&& p.text == v.text
                    &&& p.hidden == v.hidden
                    &&& p.created_at == v.created_at
                    &&& p.updated_at == v.updated_at
                    &&& p.id@.len() == 36
                },
        decreases old_pages@.len(),
    {
        let ghost k = pages@.len() as int;
        let v1 = old_pages.remove(0);
        assert(v1 == orig[k]);
        let page = Page {
            id: fresh_page_id(),
            title: v1.title,
            text: v1.text,
            hidden: v1.hidden,
            created_at: v1.created_at,
            updated_at: v1.updated_at,
        };
        pages.push(page);
        proof {
            assert(old_pages@ =~= orig.skip(k + 1));
        }
    }
    WeekPage { pages, uploaded_at: wpage.uploaded_at }
}

} // verus!
