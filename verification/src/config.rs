use vstd::prelude::*;

verus! {

/// Recent projects kept at most.
pub const MAX_RECENT_PROJECTS: usize = 20;

/// A file path with a display name.
#[derive(Debug)]
pub struct NamedPath {
    pub path: String,
    pub name: String,
}

/// The application's settings: recently opened projects, newest first, and
/// the fonts the user added.
#[derive(Debug)]
pub struct AppConfig {
    pub recent_projects: Vec<NamedPath>,
    pub font_list: Vec<NamedPath>,
}

// ---------------------------------------------------------------------------
// Trusted: path comparison
// ---------------------------------------------------------------------------

/// Whether two paths are equal as `std::path::Path` compares them: by their
/// components, so that `a//b` and `a/b/` name the same path as `a/b`.
pub uninterp spec fn same_path(a: Seq<char>, b: Seq<char>) -> bool;

/// `p` with one `/` added is the same path as `p`: `Path::components`
/// documents that a trailing slash is normalized away (`/a/b` and `/a/b/`
/// are equivalent). Stated only of a non-empty `p` that does not end in `/`,
/// does not begin with `//` and holds no `:` or `\`, where no platform's
/// prefix syntax (drive letters, UNC and verbatim paths) comes in.
pub open spec fn with_trailing_slash(p: Seq<char>, q: Seq<char>) -> bool {
    &&& p.len() > 0
    &&& q == p.push('/')
    &&& p.last() != '/'
    &&& !(p.len() >= 2 && p[0] == '/' && p[1] == '/')
    &&& forall|i: int| 0 <= i < p.len() ==> #[trigger] p[i] != ':' && p[i] != '\\'
}

/// A path of a single plain name: non-empty, neither `.` nor `..`, and
/// without `/`, backslash or `:`. On every platform it has exactly one
/// component, the name itself.
pub open spec fn is_plain_name(p: Seq<char>) -> bool {
    &&& p.len() > 0
    &&& p != seq!['.']
    &&& p != seq!['.', '.']
    &&& forall|i: int| 0 <= i < p.len() ==> #[trigger] p[i] != '/' && p[i] != '\\' && p[i] != ':'
}

/// Compares two paths with `Path`'s `==`, which compares components. The
/// result is named `same_path`. Stated of it: a path string is the same
/// path as itself; the comparison is symmetric (`Path` is `Eq`); a
/// trailing `/` makes no difference (see `with_trailing_slash`); and two
/// plain names (see `is_plain_name`), each a single component, are the same
/// path only when spelled alike. Which other spellings are equal depends on
/// the target's path syntax and is not stated.
#[verifier::external_body]
pub(crate) fn paths_equal(a: &str, b: &str) -> (r: bool)
    ensures
        r == same_path(a@, b@),
        r == same_path(b@, a@),
        a@ == b@ ==> r,
        with_trailing_slash(a@, b@) || with_trailing_slash(b@, a@) ==> r,
        is_plain_name(a@) && is_plain_name(b@) ==> (r <==> a@ == b@),
{
    std::path::Path::new(a) == std::path::Path::new(b)
}

// ---------------------------------------------------------------------------
// Model
// ---------------------------------------------------------------------------

/// `p` and `q` are the same path: spelled alike, or equal as `Path`s; two
/// plain names are the same path only when spelled alike.
pub open spec fn is_same_path(p: Seq<char>, q: Seq<char>) -> bool {
    p == q || (!(is_plain_name(p) && is_plain_name(q)) && same_path(p, q))
}

/// The entries of `items` whose path is not `path`, in order.
pub open spec fn without_path(items: Seq<NamedPath>, path: Seq<char>) -> Seq<NamedPath>
    decreases items.len(),
{
    if items.len() == 0 {
        Seq::empty()
    } else {
        let rest = without_path(items.drop_last(), path);
        if is_same_path(items.last().path@, path) {
            rest
        } else {
            rest.push(items.last())
        }
    }
}

/// The first `n` items of `s`, or all of them.
pub open spec fn truncated<A>(s: Seq<A>, n: int) -> Seq<A> {
    if s.len() > n {
        s.take(n)
    } else {
        s
    }
}

/// An empty configuration.
pub open spec fn is_empty_config(c: AppConfig) -> bool {
    c.recent_projects@.len() == 0 && c.font_list@.len() == 0
}

// ---------------------------------------------------------------------------
// Executable functions
// ---------------------------------------------------------------------------

/// A copy of a named path.
pub fn copy_named_path(item: &NamedPath) -> (r: NamedPath)
    ensures
        r == *item,
{
    NamedPath { path: item.path.clone(), name: item.name.clone() }
}

/// The entries of `items` whose path is not `path`, in order.
pub fn retain_other_paths(items: &Vec<NamedPath>, path: &str) -> (r: Vec<NamedPath>)
    ensures
        r@ == without_path(items@, path@),
{
    let mut r: Vec<NamedPath> = Vec::new();
    let mut i: usize = 0;
    while i < items.len()
        invariant
            i <= items.len(),
            r@ == without_path(items@.take(i as int), path@),
        decreases items.len() - i,
    {
        assert(items@.take(i + 1).drop_last() =~= items@.take(i as int));
        if !paths_equal(items[i].path.as_str(), path) {
            r.push(copy_named_path(&items[i]));
        }
        i = i + 1;
    }
    assert(items@.take(items.len() as int) =~= items@);
    r
}

impl AppConfig {
    /// The configuration that was read, or an empty one where none could be.
    pub fn load_or_default(loaded: Option<AppConfig>) -> (c: AppConfig)
        ensures
            match loaded {
                Some(l) => c == l,
                None => is_empty_config(c),
            },
    {
        match loaded {
            Some(c) => c,
            None => AppConfig::default(),
        }
    }

    /// Records `path` as the most recently opened project: any earlier
    /// entry for the same path goes, the new one comes first, and at most
    /// `MAX_RECENT_PROJECTS` entries stay.
    pub fn add_recent_project(&mut self, path: String, name: String)
        ensures
            final(self).recent_projects@ == truncated(
                seq![NamedPath { path, name }] + without_path(old(self).recent_projects@, path@),
                MAX_RECENT_PROJECTS as int,
            ),
            final(self).font_list == old(self).font_list,
    {
        let kept = retain_other_paths(&self.recent_projects, path.as_str());
        let ghost kept_view = kept@;
        let ghost first = NamedPath { path, name };
        let mut list: Vec<NamedPath> = Vec::new();
        list.push(NamedPath { path, name });
        let mut i: usize = 0;
        while i < kept.len() && list.len() < MAX_RECENT_PROJECTS
            invariant
                i <= kept.len(),
                kept@ == kept_view,
                list.len() == i + 1,
                list.len() <= MAX_RECENT_PROJECTS,
                list@ == seq![first] + kept_view.take(i as int),
            decreases kept.len() - i,
        {
            list.push(copy_named_path(&kept[i]));
            assert(seq![first] + kept_view.take(i + 1) =~= (seq![first] + kept_view.take(
                i as int,
            )).push(kept_view[i as int]));
            i = i + 1;
        }
        proof {
            let full = seq![first] + kept_view;
            if i == kept.len() {
                assert(kept_view.take(i as int) =~= kept_view);
                assert(full =~= list@);
            } else {
                assert(full.take(MAX_RECENT_PROJECTS as int) =~= list@);
            }
        }
        self.recent_projects = list;
    }

    /// Adds a font at the end of the list, replacing any entry with the
    /// same path.
    pub fn add_font(&mut self, path: String, name: String)
        ensures
            final(self).font_list@ == without_path(old(self).font_list@, path@).push(
                NamedPath { path, name },
            ),
            final(self).recent_projects == old(self).recent_projects,
    {
        let mut list = retain_other_paths(&self.font_list, path.as_str());
        list.push(NamedPath { path, name });
        self.font_list = list;
    }

    /// Removes every font with this path.
    pub fn remove_font(&mut self, path: &str)
        ensures
            final(self).font_list@ == without_path(old(self).font_list@, path@),
            final(self).recent_projects == old(self).recent_projects,
    {
        let list = retain_other_paths(&self.font_list, path);
        self.font_list = list;
    }
}

impl Default for AppConfig {
    fn default() -> (c: AppConfig)
        ensures
            is_empty_config(c),
    {
        AppConfig { recent_projects: Vec::new(), font_list: Vec::new() }
    }
}


// ---------------------------------------------------------------------------
// Laws
// ---------------------------------------------------------------------------

/// Everything `without_path` keeps comes from the list and names another
/// path; it keeps at most as many entries as there were.
pub proof fn lemma_without_path_members(items: Seq<NamedPath>, path: Seq<char>)
    ensures
        without_path(items, path).len() <= items.len(),
        forall|i: int|
            0 <= i < without_path(items, path).len() ==> !is_same_path(
                (#[trigger] without_path(items, path)[i]).path@,
                path,
            ) && items.contains(without_path(items, path)[i]),
    decreases items.len(),
{
    if items.len() > 0 {
        lemma_without_path_members(items.drop_last(), path);
        let rest = without_path(items.drop_last(), path);
        assert forall|i: int| 0 <= i < rest.len() implies items.contains(#[trigger] rest[i]) by {
            let j = choose|j: int| 0 <= j < items.drop_last().len() && items.drop_last()[j] == rest[i];
            assert(items[j] == rest[i]);
        }
        assert(items[items.len() - 1] == items.last());
    }
}

/// Dropping a path keeps every other entry, in order: the result is the
/// list filtered to the entries that are not the same path, so an entry
/// whose path differs (whatever its name) is never lost.
pub proof fn lemma_without_path_keeps_others(items: Seq<NamedPath>, path: Seq<char>)
    ensures
        without_path(items, path) == items.filter(|e: NamedPath| !is_same_path(e.path@, path)),
        forall|i: int|
            0 <= i < items.len() && !is_same_path(items[i].path@, path) ==> without_path(
                items,
                path,
            ).contains(#[trigger] items[i]),
    decreases items.len(),
{
    reveal(Seq::filter);
    let pred = |e: NamedPath| !is_same_path(e.path@, path);
    if items.len() > 0 {
        lemma_without_path_keeps_others(items.drop_last(), path);
        assert(items.filter(pred) == if pred(items.last()) {
            items.drop_last().filter(pred).push(items.last())
        } else {
            items.drop_last().filter(pred)
        });
    }
    assert forall|i: int|
        0 <= i < items.len() && !is_same_path(items[i].path@, path) implies without_path(
            items,
            path,
        ).contains(#[trigger] items[i]) by {
        broadcast use vstd::seq_lib::group_filter_ensures;
        assert(pred(items[i]));
    }
}

/// Dropping a path twice is dropping it once.
pub proof fn lemma_without_path_idempotent(items: Seq<NamedPath>, path: Seq<char>)
    ensures
        without_path(without_path(items, path), path) == without_path(items, path),
    decreases items.len(),
{
    if items.len() > 0 {
        let rest = without_path(items.drop_last(), path);
        lemma_without_path_idempotent(items.drop_last(), path);
        if !is_same_path(items.last().path@, path) {
            assert(rest.push(items.last()).drop_last() =~= rest);
        }
    }
}

/// After `add_font(path, name)`, the new entry is last and no other entry
/// has the same path.
pub proof fn lemma_add_font_replaces(old_list: Seq<NamedPath>, path: String, name: String)
    ensures
        ({
            let new_list = without_path(old_list, path@).push(NamedPath { path, name });
            &&& new_list.last() == NamedPath { path, name }
            &&& forall|i: int|
                0 <= i < new_list.len() - 1 ==> !is_same_path((#[trigger] new_list[i]).path@, path@)
        }),
{
    lemma_without_path_members(old_list, path@);
    let kept = without_path(old_list, path@);
    let new_list = kept.push(NamedPath { path, name });
    assert forall|i: int| 0 <= i < new_list.len() - 1 implies !is_same_path(
        (#[trigger] new_list[i]).path@,
        path@,
    ) by {
        assert(new_list[i] == kept[i]);
    }
}

/// Removing a font undoes adding it: `remove_font(path)` after
/// `add_font(path, name)` leaves what `remove_font(path)` alone leaves.
pub proof fn lemma_remove_font_undoes_add(old_list: Seq<NamedPath>, path: String, name: String)
    ensures
        without_path(without_path(old_list, path@).push(NamedPath { path, name }), path@)
            == without_path(old_list, path@),
{
    let kept = without_path(old_list, path@);
    let added = kept.push(NamedPath { path, name });
    assert(added.drop_last() =~= kept);
    lemma_without_path_idempotent(old_list, path@);
}

/// After `add_recent_project(path, name)` the list starts with the new
/// entry, holds at most `MAX_RECENT_PROJECTS` entries, and no later entry
/// has the same path.
pub proof fn lemma_recent_projects_shape(old_list: Seq<NamedPath>, path: String, name: String)
    ensures
        ({
            let new_list = truncated(
                seq![NamedPath { path, name }] + without_path(old_list, path@),
                MAX_RECENT_PROJECTS as int,
            );
            &&& new_list.len() >= 1
            &&& new_list.len() <= MAX_RECENT_PROJECTS
            &&& new_list[0] == NamedPath { path, name }
            &&& forall|i: int|
                1 <= i < new_list.len() ==> !is_same_path((#[trigger] new_list[i]).path@, path@)
        }),
{
    lemma_without_path_members(old_list, path@);
    let kept = without_path(old_list, path@);
    let full = seq![NamedPath { path, name }] + kept;
    let new_list = truncated(full, MAX_RECENT_PROJECTS as int);
    assert forall|i: int| 1 <= i < new_list.len() implies !is_same_path(
        (#[trigger] new_list[i]).path@,
        path@,
    ) by {
        assert(new_list[i] == full[i]);
        assert(full[i] == kept[i - 1]);
    }
}

} // verus!
