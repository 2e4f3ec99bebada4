use vstd::prelude::*;

use crate::dir_cache::{
    models_of, lemma_models_of, entries_wf, entry_wf, dir_depth, entry_size, EntryModel,
    CacheEntry,
};
use crate::utils::{
    lex_cmp, lex_cmp_str, lemma_lex_cmp_flip, lemma_lex_cmp_eq, lemma_lex_cmp_trans_less,
};

verus! {

broadcast use vstd::std_specs::vec::group_vec_axioms, vstd::seq::group_seq_axioms;

// ---------------------------------------------------------------------------
// Path resolution.
//
// A requested path is untrusted text. It is validated and normalized purely
// textually — the filesystem is never consulted — and then walked against the
// in-memory snapshot, so an attacker-supplied path can never escape the
// configured root.
// ---------------------------------------------------------------------------

/// Why a requested path was rejected.
#[derive(Debug, PartialEq, Eq, Structural, Clone, Copy)]
pub enum PathError {
    /// The path was absolute; only relative paths are served.
    Absolute,
    /// The path contained a parent-directory component.
    ParentDir,
    /// The path had more components than any real directory chain is deep.
    TooDeep,
}

impl PathError {
    /// The HTTP status code this rejection answers with: every rejected
    /// path is a request error, never a server fault.
    pub fn status_code(&self) -> (r: u16)
        ensures
            r == 400u16,
    {
        match self {
            PathError::Absolute => 400,
            PathError::ParentDir => 400,
            PathError::TooDeep => 400,
        }
    }
}

/// Whether a path piece survives normalization: empty pieces and
/// current-directory markers are dropped.
pub open spec fn piece_kept(c: Seq<char>) -> bool {
    c.len() > 0 && c != seq!['.']
}

/// The piece as a (possibly empty) component list.
pub open spec fn kept(c: Seq<char>) -> Seq<Seq<char>> {
    if piece_kept(c) {
        seq![c]
    } else {
        Seq::empty()
    }
}

/// A left-to-right scan of a path: `cur` is the piece read so far since the
/// last separator, `acc` the components already produced. Each `/` closes the
/// current piece; empty pieces and `.` pieces are dropped.
pub open spec fn components_from(s: Seq<char>, i: int, cur: Seq<char>, acc: Seq<Seq<char>>) -> Seq<
    Seq<char>,
>
    decreases s.len() - i,
{
    if i < 0 || i >= s.len() {
        acc + kept(cur)
    } else if s[i] == '/' {
        components_from(s, i + 1, Seq::empty(), acc + kept(cur))
    } else {
        components_from(s, i + 1, cur.push(s[i]), acc)
    }
}

/// The normalized components of a path: the `/`-separated pieces, with empty
/// pieces and current-directory markers dropped. Parent-directory pieces are
/// kept, so that validation can spot them.
pub open spec fn path_components(s: Seq<char>) -> Seq<Seq<char>> {
    components_from(s, 0, Seq::empty(), Seq::empty())
}

/// Whether the path is absolute.
pub open spec fn is_absolute_path(s: Seq<char>) -> bool {
    s.len() > 0 && s[0] == '/'
}

/// Whether any component of the path is a parent-directory token.
pub open spec fn has_parent_component(s: Seq<char>) -> bool {
    path_components(s).contains(seq!['.', '.'])
}

/// Every component the scan produces is a surviving piece: non-empty and
/// no current-directory marker. So an accepted path, whose components are
/// also checked against the parent-directory token, consists solely of
/// plain names, and resolution can only ever step downward from the root.
pub proof fn lemma_components_are_plain(s: Seq<char>, i: int, cur: Seq<char>, acc: Seq<Seq<char>>)
    requires
        forall|k: int| 0 <= k < acc.len() ==> piece_kept(#[trigger] acc[k]),
    ensures
        forall|k: int|
            0 <= k < components_from(s, i, cur, acc).len() ==> piece_kept(
                #[trigger] components_from(s, i, cur, acc)[k],
            ),
    decreases s.len() - i,
{
    assert forall|k: int|
        0 <= k < (acc + kept(cur)).len() implies piece_kept(#[trigger] (acc + kept(cur))[k]) by {
        if k >= acc.len() {
            assert((acc + kept(cur))[k] == kept(cur)[k - acc.len()]);
        }
    }
    if 0 <= i < s.len() {
        if s[i] == '/' {
            lemma_components_are_plain(s, i + 1, Seq::empty(), acc + kept(cur));
            assert(components_from(s, i, cur, acc) == components_from(
                s,
                i + 1,
                Seq::empty(),
                acc + kept(cur),
            ));
        } else {
            lemma_components_are_plain(s, i + 1, cur.push(s[i]), acc);
            assert(components_from(s, i, cur, acc) == components_from(s, i + 1, cur.push(s[i]), acc));
        }
    } else {
        assert(components_from(s, i, cur, acc) == acc + kept(cur));
    }
}

/// Every component of a normalized path is a plain name.
pub proof fn lemma_path_components_are_plain(s: Seq<char>)
    ensures
        forall|k: int|
            0 <= k < path_components(s).len() ==> piece_kept(#[trigger] path_components(s)[k]),
{
    lemma_components_are_plain(s, 0, Seq::empty(), Seq::empty());
}

/// The scan only ever appends to the components produced so far.
pub proof fn lemma_components_from_extends(s: Seq<char>, i: int, cur: Seq<char>, acc: Seq<Seq<char>>)
    ensures
        components_from(s, i, cur, acc) == acc + components_from(s, i, cur, Seq::empty()),
    decreases s.len() - i,
{
    if 0 <= i < s.len() {
        if s[i] == '/' {
            lemma_components_from_extends(s, i + 1, Seq::empty(), acc + kept(cur));
            lemma_components_from_extends(s, i + 1, Seq::empty(), kept(cur));
            assert(Seq::<Seq<char>>::empty() + kept(cur) =~= kept(cur));
            assert((acc + kept(cur)) + components_from(s, i + 1, Seq::empty(), Seq::empty()) =~= acc
                + (kept(cur) + components_from(s, i + 1, Seq::empty(), Seq::empty())));
        } else {
            lemma_components_from_extends(s, i + 1, cur.push(s[i]), acc);
        }
    } else {
        assert(Seq::<Seq<char>>::empty() + kept(cur) =~= kept(cur));
    }
}

/// The character sequences of a list of strings.
pub open spec fn strs_of(s: Seq<String>) -> Seq<Seq<char>>
    decreases s,
{
    if s.len() == 0 {
        Seq::empty()
    } else {
        strs_of(s.drop_last()).push(s.last()@)
    }
}

/// `strs_of` maps the list elementwise.
pub proof fn lemma_strs_of(s: Seq<String>)
    ensures
        strs_of(s).len() == s.len(),
        forall|i: int| 0 <= i < s.len() ==> strs_of(s)[i] == s[i]@,
    decreases s,
{
    if s.len() > 0 {
        lemma_strs_of(s.drop_last());
    }
}

/// Validates and normalizes an externally supplied path, without touching
/// the filesystem: an absolute path is rejected, a parent-directory
/// component is rejected, and empty or current-directory pieces are
/// dropped, so the empty path and `.` both normalize to the root.
#[verifier::loop_isolation(false)]
pub fn normalise_path(path: &str) -> (r: Result<Vec<String>, PathError>)
    ensures
        is_absolute_path(path@) ==> r == Err::<Vec<String>, PathError>(PathError::Absolute),
        !is_absolute_path(path@) && has_parent_component(path@) ==> r == Err::<
            Vec<String>,
            PathError,
        >(PathError::ParentDir),
        !is_absolute_path(path@) && !has_parent_component(path@) ==> r is Ok && strs_of(
            r.unwrap()@,
        ) == path_components(path@),
{
    let n = path.unicode_len();
    if n > 0 && path.get_char(0) == '/' {
        return Err(PathError::Absolute);
    }
    let ghost s = path@;
    let mut parts: Vec<String> = Vec::new();
    proof {
        assert(s.subrange(0, 0) =~= Seq::<char>::empty());
        assert(strs_of(parts@) =~= Seq::<Seq<char>>::empty());
    }
    let mut st: usize = 0;
    let mut i: usize = 0;
    while i < n
        invariant
            0 <= st <= i <= n,
            n == s.len(),
            forall|k: int| st <= k < i ==> s[k] != '/',
            path_components(s) == components_from(
                s,
                i as int,
                s.subrange(st as int, i as int),
                strs_of(parts@),
            ),
            forall|k: int| 0 <= k < parts@.len() ==> strs_of(parts@)[k] != seq!['.', '.'],
            strs_of(parts@).len() == parts@.len(),
        decreases n - i,
    {
        let c = path.get_char(i);
        if c == '/' {
            let ghost cur = s.subrange(st as int, i as int);
            let seg_len = i - st;
            if seg_len == 0 {
                proof {
                    assert(cur =~= Seq::<char>::empty());
                    assert(strs_of(parts@) + kept(cur) =~= strs_of(parts@));
                }
            } else if seg_len == 1 && path.get_char(st) == '.' {
                proof {
                    assert(cur =~= seq!['.']);
                    assert(strs_of(parts@) + kept(cur) =~= strs_of(parts@));
                }
            } else if seg_len == 2 && path.get_char(st) == '.' && path.get_char(st + 1) == '.' {
                proof {
                    assert(cur =~= seq!['.', '.']);
                    assert(piece_kept(cur));
                    lemma_components_from_extends(s, i as int + 1, Seq::empty(), strs_of(parts@) + kept(cur));
                    let tail = components_from(s, i as int + 1, Seq::empty(), Seq::empty());
                    assert(path_components(s) == (strs_of(parts@) + kept(cur)) + tail);
                    assert(path_components(s)[strs_of(parts@).len() as int] == seq!['.', '.']);
                    assert(has_parent_component(s));
                }
                return Err(PathError::ParentDir);
            } else {
                let comp = path.substring_char(st, i).to_owned();
                let ghost prev = parts@;
                parts.push(comp);
                proof {
                    assert(parts@.drop_last() =~= prev);
                    assert(cur.len() == i - st);
                    if i - st == 1 {
                        assert(cur[0] == s[st as int]);
                    }
                    assert(piece_kept(cur));
                    assert(strs_of(parts@) =~= strs_of(prev).push(cur));
                    assert(strs_of(parts@) =~= strs_of(prev) + kept(cur));
                    lemma_strs_of(parts@);
                    assert(cur != seq!['.', '.']);
                }
            }
            st = i + 1;
            proof {
                assert(s.subrange(st as int, i as int + 1) =~= Seq::<char>::empty());
            }
        } else {
            proof {
                assert(s.subrange(st as int, i as int + 1) =~= s.subrange(st as int, i as int).push(
                    s[i as int],
                ));
            }
        }
        i = i + 1;
    }
    // the final piece, after the last separator
    let ghost cur = s.subrange(st as int, n as int);
    let seg_len = n - st;
    if seg_len == 2 && path.get_char(st) == '.' && path.get_char(st + 1) == '.' {
        proof {
            assert(cur =~= seq!['.', '.']);
            assert(piece_kept(cur));
            assert(path_components(s) == strs_of(parts@) + kept(cur));
            assert(path_components(s)[strs_of(parts@).len() as int] == seq!['.', '.']);
            assert(has_parent_component(s));
        }
        return Err(PathError::ParentDir);
    }
    if seg_len == 0 || (seg_len == 1 && path.get_char(st) == '.') {
        proof {
            if seg_len == 0 {
                assert(cur =~= Seq::<char>::empty());
            } else {
                assert(cur =~= seq!['.']);
            }
            assert(strs_of(parts@) + kept(cur) =~= strs_of(parts@));
            lemma_strs_of(parts@);
            assert(!has_parent_component(s)) by {
                if path_components(s).contains(seq!['.', '.']) {
                    let k = choose|k: int|
                        0 <= k < path_components(s).len() && path_components(s)[k] == seq![
                            '.',
                            '.',
                        ];
                    assert(strs_of(parts@)[k] == seq!['.', '.']);
                }
            }
        }
        return Ok(parts);
    }
    let comp = path.substring_char(st, n).to_owned();
    let ghost prev = parts@;
    parts.push(comp);
    proof {
        assert(parts@.drop_last() =~= prev);
        assert(cur.len() == n - st);
        if n - st == 1 {
            assert(cur[0] == s[st as int]);
        }
        assert(piece_kept(cur));
        assert(strs_of(parts@) =~= strs_of(prev).push(cur));
        assert(strs_of(parts@) =~= strs_of(prev) + kept(cur));
        lemma_strs_of(parts@);
        assert(cur != seq!['.', '.']);
        assert(!has_parent_component(s)) by {
            if path_components(s).contains(seq!['.', '.']) {
                let k = choose|k: int|
                    0 <= k < path_components(s).len() && path_components(s)[k] == seq!['.', '.'];
                assert(strs_of(parts@)[k] == seq!['.', '.']);
            }
        }
    }
    Ok(parts)
}

// ---------------------------------------------------------------------------
// Walking the snapshot.
// ---------------------------------------------------------------------------

/// The children of the first directory in the list with this name, if any.
/// A file with the name does not match.
pub open spec fn find_dir(entries: Seq<EntryModel>, name: Seq<char>) -> Option<Seq<EntryModel>>
    decreases entries,
{
    if entries.len() == 0 {
        None
    } else {
        match entries.first() {
            EntryModel::Dir { name: n, children, .. } => if n == name {
                Some(children)
            } else {
                find_dir(entries.drop_first(), name)
            },
            EntryModel::File { .. } => find_dir(entries.drop_first(), name),
        }
    }
}

/// Walks the normalized path component by component against the in-memory
/// tree: when the path runs out, the current directory's children; when no
/// directory child matches the next component, nothing.
pub open spec fn lookup_spec(parts: Seq<Seq<char>>, entries: Seq<EntryModel>) -> Option<
    Seq<EntryModel>,
>
    decreases parts.len(),
{
    if parts.len() == 0 {
        Some(entries)
    } else {
        match find_dir(entries, parts.first()) {
            Some(children) => lookup_spec(parts.drop_first(), children),
            None => None,
        }
    }
}

/// What a successful search finds is the child list of a well-formed
/// directory, so it is well-formed itself.
pub proof fn lemma_find_dir_wf(entries: Seq<EntryModel>, name: Seq<char>)
    requires
        entries_wf(entries),
        find_dir(entries, name) is Some,
    ensures
        entries_wf(find_dir(entries, name).unwrap()),
    decreases entries,
{
    if entries.len() > 0 {
        assert(entry_wf(entries[0]));
        match entries.first() {
            EntryModel::Dir { name: n, children, .. } => {
                if n != name {
                    assert(entries_wf(entries.drop_first()));
                    lemma_find_dir_wf(entries.drop_first(), name);
                }
            },
            EntryModel::File { .. } => {
                assert(entries_wf(entries.drop_first()));
                lemma_find_dir_wf(entries.drop_first(), name);
            },
        }
    }
}

/// What a walk of a well-formed snapshot returns is well-formed itself.
pub proof fn lemma_lookup_spec_wf(parts: Seq<Seq<char>>, entries: Seq<EntryModel>)
    requires
        entries_wf(entries),
        lookup_spec(parts, entries) is Some,
    ensures
        entries_wf(lookup_spec(parts, entries).unwrap()),
    decreases parts.len(),
{
    if parts.len() > 0 {
        lemma_find_dir_wf(entries, parts.first());
        lemma_lookup_spec_wf(parts.drop_first(), find_dir(entries, parts.first()).unwrap());
    }
}

/// If no entry among the first `i` matches as a directory named `name`, the
/// search outcome is decided by the rest of the list.
pub proof fn lemma_find_dir_skip(entries: Seq<EntryModel>, name: Seq<char>, i: int)
    requires
        0 <= i <= entries.len(),
        forall|k: int|
            0 <= k < i ==> !((#[trigger] entries[k]) is Dir && entries[k].name() == name),
    ensures
        find_dir(entries, name) == find_dir(entries.skip(i), name),
    decreases i,
{
    if i > 0 {
        assert(entries.skip(0) =~= entries);
        let rest = entries.drop_first();
        assert(rest.skip(i - 1) =~= entries.skip(i));
        lemma_find_dir_skip(rest, name, i - 1);
    } else {
        assert(entries.skip(0) =~= entries);
    }
}

/// The walk from component `i` on, against the subtree `v`.
#[verifier::loop_isolation(false)]
fn lookup_from(path: &Vec<String>, i: usize, v: &Vec<CacheEntry>) -> (r: Option<Vec<CacheEntry>>)
    requires
        i <= path@.len(),
    ensures
        r is Some ==> lookup_spec(strs_of(path@).skip(i as int), models_of(v@)) == Some(
            models_of(r.unwrap()@),
        ),
        r is None ==> lookup_spec(strs_of(path@).skip(i as int), models_of(v@)) is None,
    decreases path@.len() - i,
{
    proof {
        lemma_strs_of(path@);
    }
    let ghost parts = strs_of(path@).skip(i as int);
    let ghost ms = models_of(v@);
    if i == path.len() {
        proof {
            assert(parts =~= Seq::<Seq<char>>::empty());
        }
        return Some(crate::dir_cache::clone_entries(v));
    }
    proof {
        assert(parts.first() == path@[i as int]@);
        lemma_models_of(v@);
    }
    let mut j: usize = 0;
    while j < v.len()
        invariant
            0 <= j <= v.len(),
            forall|k: int|
                0 <= k < j ==> !((#[trigger] ms[k]) is Dir && ms[k].name() == path@[i as int]@),
        decreases v.len() - j,
    {
        match &v[j] {
            CacheEntry::Dir(dd) => {
                if dd.name == path[i] {
                    proof {
                        lemma_find_dir_skip(ms, parts.first(), j as int);
                        assert(ms.skip(j as int).first() == ms[j as int]);
                        assert(ms.skip(j as int).first() is Dir);
                        assert(find_dir(ms, parts.first()) == Some(
                            models_of(dd.children@),
                        ));
                        assert(strs_of(path@).skip(i as int + 1) =~= parts.drop_first());
                    }
                    return lookup_from(path, i + 1, &dd.children);
                }
            },
            CacheEntry::File(_) => {},
        }
        j = j + 1;
    }
    proof {
        lemma_find_dir_skip(ms, parts.first(), v@.len() as int);
        assert(ms.skip(v@.len() as int) =~= Seq::<EntryModel>::empty());
    }
    None
}

/// Finds the subtree the normalized path names: the children of that
/// directory, or nothing when no cached directory matches — the caller may
/// then try serving the path as a file instead of a listing. The walk never
/// touches the filesystem.
pub fn path_contents_from_cache(path: &Vec<String>, v: &Vec<CacheEntry>) -> (r: Option<
    Vec<CacheEntry>,
>)
    ensures
        r is Some ==> lookup_spec(strs_of(path@), models_of(v@)) == Some(models_of(r.unwrap()@)),
        r is None ==> lookup_spec(strs_of(path@), models_of(v@)) is None,
{
    proof {
        assert(strs_of(path@).skip(0) =~= strs_of(path@));
    }
    lookup_from(path, 0, v)
}

/// The longest chain of nested directories in a snapshot's top level: the
/// deepest directory entry decides; a snapshot with no directories has
/// depth zero.
pub open spec fn snapshot_depth(ms: Seq<EntryModel>) -> nat
    decreases ms,
{
    if ms.len() == 0 {
        0
    } else {
        let rest = snapshot_depth(ms.drop_last());
        let here = match ms.last() {
            EntryModel::Dir { children, .. } => dir_depth(children),
            EntryModel::File { .. } => 0,
        };
        if here > rest {
            here
        } else {
            rest
        }
    }
}

/// Looks up the normalized path in the snapshot, but only after bounding its
/// component count against the snapshot's depth: a request deeper than any
/// real directory chain is rejected outright, before any of the tree is
/// walked, as a cheap guard against pathological requests.
#[verifier::loop_isolation(false)]
pub fn lookup_bounded(path: &Vec<String>, v: &Vec<CacheEntry>) -> (r: Result<
    Option<Vec<CacheEntry>>,
    PathError,
>)
    requires
        entries_wf(models_of(v@)),
    ensures
        path@.len() > snapshot_depth(models_of(v@)) + 1 <==> r == Err::<
            Option<Vec<CacheEntry>>,
            PathError,
        >(PathError::TooDeep),
        r is Err ==> r == Err::<Option<Vec<CacheEntry>>, PathError>(PathError::TooDeep),
        r is Ok ==> match r.unwrap() {
            Some(c) => lookup_spec(strs_of(path@), models_of(v@)) == Some(models_of(c@))
                && entries_wf(models_of(c@)),
            None => lookup_spec(strs_of(path@), models_of(v@)) is None,
        },
{
    let ghost ms = models_of(v@);
    proof {
        lemma_models_of(v@);
    }
    let mut max_depth: usize = 0;
    let mut j: usize = 0;
    while j < v.len()
        invariant
            0 <= j <= v.len(),
            max_depth == snapshot_depth(ms.take(j as int)),
            max_depth < usize::MAX,
        decreases v.len() - j,
    {
        proof {
            assert(entry_wf(ms[j as int]));
            assert(ms.take(j as int + 1).drop_last() =~= ms.take(j as int));
            assert(ms.take(j as int + 1).last() == ms[j as int]);
        }
        match &v[j] {
            CacheEntry::Dir(dd) => {
                let depth = dd.max_depth();
                if depth > max_depth {
                    max_depth = depth;
                }
            },
            CacheEntry::File(_) => {},
        }
        j = j + 1;
    }
    proof {
        assert(ms.take(v@.len() as int) =~= ms);
    }
    if path.len() > max_depth + 1 {
        return Err(PathError::TooDeep);
    }
    let found = path_contents_from_cache(path, v);
    proof {
        if lookup_spec(strs_of(path@), models_of(v@)) is Some {
            lemma_lookup_spec_wf(strs_of(path@), models_of(v@));
        }
    }
    Ok(found)
}

// ---------------------------------------------------------------------------
// Ordering a listing.
// ---------------------------------------------------------------------------

/// The direction a listing is sorted in.
#[derive(Debug, PartialEq, Eq, Structural, Clone, Copy)]
pub enum SortDirection {
    Ascending,
    Descending,
}

impl Default for SortDirection {
    /// Listings sort ascending unless asked otherwise.
    fn default() -> (r: Self)
        ensures
            r == SortDirection::Ascending,
    {
        SortDirection::Ascending
    }
}

/// The value a listing is sorted by.
#[derive(Debug, PartialEq, Eq, Structural, Clone, Copy)]
pub enum SortKey {
    Name,
    Date,
    Size,
    ChildrenCount,
}

impl Default for SortKey {
    /// Listings sort by name unless asked otherwise.
    fn default() -> (r: Self)
        ensures
            r == SortKey::Name,
    {
        SortKey::Name
    }
}

/// The browse query: what to sort by, in which direction, and whether a
/// download-manager manifest was requested instead of a listing.
#[derive(Debug)]
pub struct FetchQuery {
    /// Direction to sort in.
    pub sort_direction: SortDirection,
    /// Value to sort by.
    pub sort_key: SortKey,
    /// Present when a download-manager manifest was requested.
    pub aria2: Option<String>,
}

impl FetchQuery {
    /// Whether a download-manager manifest was requested.
    pub fn aria2(&self) -> (r: bool)
        ensures
            r == self.aria2 is Some,
    {
        self.aria2.is_some()
    }
}

/// Numeric order.
pub open spec fn int_cmp(a: int, b: int) -> core::cmp::Ordering {
    if a < b {
        core::cmp::Ordering::Less
    } else if a > b {
        core::cmp::Ordering::Greater
    } else {
        core::cmp::Ordering::Equal
    }
}

/// The second comparison decides where the first is a tie.
pub open spec fn ord_chain(first: core::cmp::Ordering, second: core::cmp::Ordering) -> core::cmp::Ordering {
    if first == core::cmp::Ordering::Equal {
        second
    } else {
        first
    }
}

/// Directories order after files; among directories, by direct child count.
pub open spec fn class_count_cmp(a: EntryModel, b: EntryModel) -> core::cmp::Ordering {
    let class = int_cmp(
        if a is Dir {
            1int
        } else {
            0int
        },
        if b is Dir {
            1int
        } else {
            0int
        },
    );
    if a is Dir && b is Dir {
        ord_chain(class, int_cmp(a->Dir_children.len() as int, b->Dir_children.len() as int))
    } else {
        class
    }
}

/// How two entries order under a sort key, ascending: by the key's value,
/// with equal names breaking every tie.
pub open spec fn entry_cmp(key: SortKey, a: EntryModel, b: EntryModel) -> core::cmp::Ordering {
    match key {
        SortKey::Name => lex_cmp(a.name(), b.name()),
        SortKey::Date => ord_chain(lex_cmp(a.created(), b.created()), lex_cmp(a.name(), b.name())),
        SortKey::Size => ord_chain(
            int_cmp(entry_size(a) as int, entry_size(b) as int),
            lex_cmp(a.name(), b.name()),
        ),
        SortKey::ChildrenCount => ord_chain(class_count_cmp(a, b), lex_cmp(a.name(), b.name())),
    }
}

/// Whether `a` orders no later than `b` under the key and direction.
pub open spec fn entry_le(key: SortKey, direction: SortDirection, a: EntryModel, b: EntryModel) -> bool {
    match direction {
        SortDirection::Ascending => entry_cmp(key, a, b) != core::cmp::Ordering::Greater,
        SortDirection::Descending => entry_cmp(key, a, b) != core::cmp::Ordering::Less,
    }
}

/// Swapping the arguments flips an entry comparison.
pub proof fn lemma_entry_cmp_flip(key: SortKey, a: EntryModel, b: EntryModel)
    ensures
        entry_cmp(key, b, a) == (match entry_cmp(key, a, b) {
            core::cmp::Ordering::Less => core::cmp::Ordering::Greater,
            core::cmp::Ordering::Equal => core::cmp::Ordering::Equal,
            core::cmp::Ordering::Greater => core::cmp::Ordering::Less,
        }),
{
    lemma_lex_cmp_flip(a.name(), b.name());
    lemma_lex_cmp_flip(a.created(), b.created());
}

/// One of two entries always orders no later than the other.
pub proof fn lemma_entry_le_total(key: SortKey, direction: SortDirection, a: EntryModel, b: EntryModel)
    ensures
        entry_le(key, direction, a, b) || entry_le(key, direction, b, a),
{
    lemma_entry_cmp_flip(key, a, b);
}

/// The entry order is transitive.
pub proof fn lemma_entry_le_trans(
    key: SortKey,
    direction: SortDirection,
    a: EntryModel,
    b: EntryModel,
    c: EntryModel,
)
    requires
        entry_le(key, direction, a, b),
        entry_le(key, direction, b, c),
    ensures
        entry_le(key, direction, a, c),
{
    match direction {
        SortDirection::Ascending => lemma_entry_cmp_trans(key, a, b, c),
        SortDirection::Descending => {
            lemma_entry_cmp_flip(key, a, b);
            lemma_entry_cmp_flip(key, b, c);
            lemma_entry_cmp_trans(key, c, b, a);
            lemma_entry_cmp_flip(key, a, c);
        },
    }
}

/// Ascending entry comparison is transitive.
pub proof fn lemma_entry_cmp_trans(key: SortKey, a: EntryModel, b: EntryModel, c: EntryModel)
    requires
        entry_cmp(key, a, b) != core::cmp::Ordering::Greater,
        entry_cmp(key, b, c) != core::cmp::Ordering::Greater,
    ensures
        entry_cmp(key, a, c) != core::cmp::Ordering::Greater,
{
    lemma_lex_cmp_eq(a.name(), b.name());
    lemma_lex_cmp_eq(b.name(), c.name());
    lemma_lex_cmp_eq(a.name(), c.name());
    lemma_lex_cmp_eq(a.created(), b.created());
    lemma_lex_cmp_eq(b.created(), c.created());
    lemma_lex_cmp_eq(a.created(), c.created());
    if lex_cmp(a.name(), b.name()) == core::cmp::Ordering::Less && lex_cmp(
        b.name(),
        c.name(),
    ) == core::cmp::Ordering::Less {
        lemma_lex_cmp_trans_less(a.name(), b.name(), c.name());
    }
    if lex_cmp(a.created(), b.created()) == core::cmp::Ordering::Less && lex_cmp(
        b.created(),
        c.created(),
    ) == core::cmp::Ordering::Less {
        lemma_lex_cmp_trans_less(a.created(), b.created(), c.created());
    }
}

/// Whether `a` orders no later than `b`, computed.
pub fn entry_le_exec(key: SortKey, direction: SortDirection, a: &CacheEntry, b: &CacheEntry) -> (r: bool)
    requires
        entry_wf(a@),
        entry_wf(b@),
    ensures
        r == entry_le(key, direction, a@, b@),
{
    let name_ord = lex_cmp_str(a.name(), b.name());
    let ord = match key {
        SortKey::Name => name_ord,
        SortKey::Date => match lex_cmp_str(a.created(), b.created()) {
            core::cmp::Ordering::Equal => name_ord,
            o => o,
        },
        SortKey::Size => {
            let sa = a.size();
            let sb = b.size();
            let so = if sa < sb {
                core::cmp::Ordering::Less
            } else if sa > sb {
                core::cmp::Ordering::Greater
            } else {
                core::cmp::Ordering::Equal
            };
            match so {
                core::cmp::Ordering::Equal => name_ord,
                o => o,
            }
        },
        SortKey::ChildrenCount => {
            let co = match (a.is_dir(), b.is_dir()) {
                (true, true) => {
                    let ca = a.as_dir().children_count();
                    let cb = b.as_dir().children_count();
                    if ca < cb {
                        core::cmp::Ordering::Less
                    } else if ca > cb {
                        core::cmp::Ordering::Greater
                    } else {
                        core::cmp::Ordering::Equal
                    }
                },
                (true, false) => core::cmp::Ordering::Greater,
                (false, true) => core::cmp::Ordering::Less,
                (false, false) => core::cmp::Ordering::Equal,
            };
            match co {
                core::cmp::Ordering::Equal => name_ord,
                o => o,
            }
        },
    };
    match direction {
        SortDirection::Ascending => match ord {
            core::cmp::Ordering::Greater => false,
            _ => true,
        },
        SortDirection::Descending => match ord {
            core::cmp::Ordering::Less => false,
            _ => true,
        },
    }
}

/// Sorts a listing by the requested key and direction: the result holds
/// exactly the given entries, in order.
#[verifier::loop_isolation(false)]
pub fn sort_entries(key: SortKey, direction: SortDirection, entries: Vec<CacheEntry>) -> (r: Vec<
    CacheEntry,
>)
    requires
        entries_wf(models_of(entries@)),
    ensures
        models_of(r@).to_multiset() == models_of(entries@).to_multiset(),
        entries_wf(models_of(r@)),
        forall|x: int, y: int|
            0 <= x < y < models_of(r@).len() ==> entry_le(
                key,
                direction,
                models_of(r@)[x],
                models_of(r@)[y],
            ),
{
    broadcast use vstd::seq_lib::group_to_multiset_ensures;

    let ghost orig = models_of(entries@);
    let mut rest = entries;
    let mut out: Vec<CacheEntry> = Vec::new();
    proof {
        lemma_models_of(rest@);
        assert(models_of(out@) =~= Seq::<EntryModel>::empty());
        assert(models_of(out@).to_multiset().add(models_of(rest@).to_multiset()) =~= orig.to_multiset());
    }
    while rest.len() > 0
        invariant
            entries_wf(models_of(rest@)),
            entries_wf(models_of(out@)),
            models_of(out@).to_multiset().add(models_of(rest@).to_multiset())
                == orig.to_multiset(),
            forall|x: int, y: int|
                0 <= x < y < models_of(out@).len() ==> entry_le(
                    key,
                    direction,
                    models_of(out@)[x],
                    models_of(out@)[y],
                ),
            forall|x: int, y: int|
                0 <= x < models_of(out@).len() && 0 <= y < models_of(rest@).len() ==> entry_le(
                    key,
                    direction,
                    models_of(out@)[x],
                    models_of(rest@)[y],
                ),
        decreases rest@.len(),
    {
        let ghost ms = models_of(rest@);
        proof {
            lemma_models_of(rest@);
            lemma_entry_le_total(key, direction, ms[0], ms[0]);
        }
        // find the least remaining entry
        let mut min: usize = 0;
        let mut j: usize = 1;
        while j < rest.len()
            invariant
                0 <= min < j <= rest@.len(),
                ms == models_of(rest@),
                forall|k: int| 0 <= k < j ==> entry_le(key, direction, ms[min as int], ms[k]),
            decreases rest@.len() - j,
        {
            proof {
                lemma_models_of(rest@);
                lemma_entry_le_total(key, direction, ms[min as int], ms[j as int]);
            }
            if entry_le_exec(key, direction, &rest[j], &rest[min]) {
                proof {
                    assert forall|k: int| 0 <= k < j implies entry_le(
                        key,
                        direction,
                        ms[j as int],
                        ms[k],
                    ) by {
                        lemma_entry_le_trans(key, direction, ms[j as int], ms[min as int], ms[k]);
                    }
                    lemma_entry_le_total(key, direction, ms[j as int], ms[j as int]);
                }
                min = j;
            }
            j = j + 1;
        }
        let ghost prev_out_seq = out@;
        let ghost prev_rest_seq = rest@;
        let ghost prev_out = models_of(out@);
        let ghost prev_rest = models_of(rest@);
        let chosen = rest.remove(min);
        let ghost c = chosen@;
        out.push(chosen);
        proof {
            lemma_models_of(prev_out_seq);
            lemma_models_of(prev_rest_seq);
            lemma_models_of(rest@);
            lemma_models_of(out@);
            assert(c == prev_rest[min as int]);
            assert(models_of(out@) =~= prev_out.push(c));
            assert(models_of(rest@) =~= prev_rest.remove(min as int));
            assert(prev_rest.remove(min as int).to_multiset() =~= prev_rest.to_multiset().remove(
                c,
            ));
            assert(models_of(out@).to_multiset() =~= prev_out.to_multiset().insert(c));
            assert(prev_rest.to_multiset().contains(c));
            assert(models_of(out@).to_multiset().add(models_of(rest@).to_multiset()) =~= orig.to_multiset());
            // the chosen entry orders no later than everything still left
            assert forall|y: int| 0 <= y < models_of(rest@).len() implies entry_le(
                key,
                direction,
                c,
                models_of(rest@)[y],
            ) by {
                if y < min {
                    assert(models_of(rest@)[y] == prev_rest[y]);
                } else {
                    assert(models_of(rest@)[y] == prev_rest[y + 1]);
                }
            }
            // everything already placed orders no later than the chosen entry
            assert forall|x: int, y: int|
                0 <= x < y < models_of(out@).len() implies entry_le(
                key,
                direction,
                models_of(out@)[x],
                models_of(out@)[y],
            ) by {
                if y < models_of(out@).len() - 1 {
                    assert(models_of(out@)[x] == prev_out[x]);
                    assert(models_of(out@)[y] == prev_out[y]);
                } else {
                    assert(models_of(out@)[x] == prev_out[x]);
                    assert(models_of(out@)[y] == c);
                    assert(entry_le(key, direction, prev_out[x], prev_rest[min as int]));
                }
            }
            assert forall|x: int, y: int|
                0 <= x < models_of(out@).len() && 0 <= y < models_of(rest@).len() implies entry_le(
                key,
                direction,
                models_of(out@)[x],
                models_of(rest@)[y],
            ) by {
                let e = if y < min {
                    prev_rest[y]
                } else {
                    prev_rest[y + 1]
                };
                assert(models_of(rest@)[y] == e);
                if x < models_of(out@).len() - 1 {
                    assert(models_of(out@)[x] == prev_out[x]);
                } else {
                    assert(models_of(out@)[x] == c);
                }
            }
            assert(entries_wf(models_of(out@)));
            assert(entries_wf(models_of(rest@)));
        }
    }
    proof {
        assert(models_of(rest@) =~= Seq::<EntryModel>::empty());
        assert(models_of(out@).to_multiset() =~= orig.to_multiset());
    }
    out
}

// ---------------------------------------------------------------------------
// The directory view: what a listing page is rendered from.
// ---------------------------------------------------------------------------

/// What percent-encoding a path piece yields. The encoding is a function of
/// the text alone.
pub uninterp spec fn url_encoded_of(s: Seq<char>) -> Seq<char>;

/// Relies on askama's urlencode filter: percent-encodes every character
/// except ASCII letters, digits and `_`, `.`, `-`, `~`, `/`, as a function
/// of the text alone; it is infallible, its error type having no values.
#[verifier::external_body]
fn url_encode(s: &str) -> (r: String)
    ensures
        r@ == url_encoded_of(s@),
{
    let encoded = askama::filters::urlencode(s).unwrap();
    encoded.to_string()
}

/// The browsed directory as text: every component followed by a slash, so
/// the root is empty and `a/b` becomes `a/b/`.
pub open spec fn joined_path(parts: Seq<Seq<char>>) -> Seq<char>
    decreases parts,
{
    if parts.len() == 0 {
        Seq::empty()
    } else {
        joined_path(parts.drop_last()) + parts.last() + seq!['/']
    }
}

/// Components joined with slashes between them: the empty text for no
/// components, so the parent of a top-level directory is the root.
pub open spec fn joined_parent(parts: Seq<Seq<char>>) -> Seq<char>
    decreases parts,
{
    if parts.len() == 0 {
        Seq::empty()
    } else if parts.len() == 1 {
        parts[0]
    } else {
        joined_parent(parts.drop_last()) + seq!['/'] + parts.last()
    }
}

/// The anchor list from component `i` on: each component becomes an anchor
/// whose target is the percent-encoded path down to it, and anchors are
/// separated by slashes. `acc` is the encoded path above component `i`.
pub open spec fn anchors_from(parts: Seq<Seq<char>>, i: int, acc: Seq<char>) -> Seq<char>
    decreases parts.len() - i,
{
    if i < 0 || i >= parts.len() {
        Seq::empty()
    } else {
        let acc2 = acc + seq!['/'] + url_encoded_of(parts[i]);
        let anchor = "<a href=\"/browse"@ + acc2 + "\"><strong>"@ + parts[i] + "</strong></a>"@;
        let sep: Seq<char> = if i == parts.len() - 1 {
            Seq::empty()
        } else {
            " / "@
        };
        anchor + sep + anchors_from(parts, i + 1, acc2)
    }
}

impl CacheEntry {
    /// This entry's name, percent-encoded for use in a link.
    pub fn name_url_encoded(&self) -> (r: String)
        ensures
            r@ == url_encoded_of(self@.name()),
    {
        url_encode(self.name())
    }
}

/// What a listing page is rendered from: the directory's entries in the
/// requested order, and the navigation texts for the directory itself.
#[derive(Debug)]
pub struct DirectoryViewTemplate {
    /// The parent directory to link up to; absent at the root.
    pub parent_directory: Option<String>,
    /// One anchor per component of the browsed path, for navigating up.
    pub list_of_anchors: String,
    /// The browsed directory, with a trailing slash.
    pub display_dirname: String,
    /// The browsed directory, percent-encoded.
    pub encoded_dirname: String,
    /// The directory's entries, sorted as requested.
    pub entries: Vec<CacheEntry>,
    /// Direction the entries are sorted in.
    pub sort_direction: SortDirection,
    /// Value the entries are sorted by.
    pub sort_key: SortKey,
}

impl DirectoryViewTemplate {
    /// Assembles the view of one directory: the navigation texts computed
    /// from the normalized path, and the entries sorted by the requested
    /// key and direction.
    #[verifier::loop_isolation(false)]
    pub fn new(data_dir: &Vec<String>, entries: Vec<CacheEntry>, query: FetchQuery) -> (r: Self)
        requires
            entries_wf(models_of(entries@)),
        ensures
            r.sort_key == query.sort_key,
            r.sort_direction == query.sort_direction,
            r.display_dirname@ == joined_path(strs_of(data_dir@)),
            r.encoded_dirname@ == url_encoded_of(joined_path(strs_of(data_dir@))),
            r.parent_directory is Some <==> data_dir@.len() > 0,
            r.parent_directory is Some ==> r.parent_directory.unwrap()@ == joined_parent(
                strs_of(data_dir@).drop_last(),
            ),
            r.list_of_anchors@ == anchors_from(strs_of(data_dir@), 0, Seq::empty()),
            models_of(r.entries@).to_multiset() == models_of(entries@).to_multiset(),
            entries_wf(models_of(r.entries@)),
            forall|x: int, y: int|
                0 <= x < y < models_of(r.entries@).len() ==> entry_le(
                    query.sort_key,
                    query.sort_direction,
                    models_of(r.entries@)[x],
                    models_of(r.entries@)[y],
                ),
    {
        let ghost parts = strs_of(data_dir@);
        proof {
            lemma_strs_of(data_dir@);
        }
        let n = data_dir.len();

        // the directory as text, every component followed by a slash
        let mut dirname = String::new();
        proof {
            assert(parts.take(0) =~= Seq::<Seq<char>>::empty());
        }
        let mut i: usize = 0;
        while i < n
            invariant
                0 <= i <= n,
                n == data_dir@.len(),
                parts == strs_of(data_dir@),
                parts.len() == n,
                dirname@ == joined_path(parts.take(i as int)),
            decreases n - i,
        {
            proof {
                assert(parts.take(i as int + 1).drop_last() =~= parts.take(i as int));
                assert(parts.take(i as int + 1).last() == parts[i as int]);
            }
            dirname.append(data_dir[i].as_str());
            dirname.append("/");
            proof {
                reveal_strlit("/");
                assert("/"@ =~= seq!['/']);
            }
            i = i + 1;
        }
        proof {
            assert(parts.take(n as int) =~= parts);
        }

        let encoded_dirname = url_encode(dirname.as_str());

        // the parent, for navigating up: absent at the root
        let parent_directory: Option<String> = if n == 0 {
            None
        } else {
            let mut parent = String::new();
            proof {
                assert(parts.drop_last().take(0) =~= Seq::<Seq<char>>::empty());
            }
            let mut i2: usize = 0;
            while i2 < n - 1
                invariant
                    0 <= i2 <= n - 1,
                    n == data_dir@.len(),
                    n >= 1,
                    parts == strs_of(data_dir@),
                    parts.len() == n,
                    parent@ == joined_parent(parts.drop_last().take(i2 as int)),
                decreases n - i2,
            {
                proof {
                    assert(parts.drop_last().take(i2 as int + 1).drop_last() =~= parts.drop_last()
                        .take(i2 as int));
                    assert(parts.drop_last().take(i2 as int + 1).last() == parts[i2 as int]);
                    reveal_strlit("/");
                    assert("/"@ =~= seq!['/']);
                }
                if i2 > 0 {
                    parent.append("/");
                }
                parent.append(data_dir[i2].as_str());
                i2 = i2 + 1;
            }
            proof {
                assert(parts.drop_last().take(n - 1) =~= parts.drop_last());
            }
            Some(parent)
        };

        // one anchor per component, for navigating to each ancestor
        let mut list_of_anchors = String::new();
        let mut accumulated = String::new();
        let ghost whole = anchors_from(parts, 0, Seq::empty());
        let mut i3: usize = 0;
        while i3 < n
            invariant
                0 <= i3 <= n,
                n == data_dir@.len(),
                parts == strs_of(data_dir@),
                parts.len() == n,
                whole == anchors_from(parts, 0, Seq::empty()),
                whole == list_of_anchors@ + anchors_from(parts, i3 as int, accumulated@),
            decreases n - i3,
        {
            let ghost acc0 = accumulated@;
            let ghost out0 = list_of_anchors@;
            proof {
                reveal_strlit("/");
                assert("/"@ =~= seq!['/']);
            }
            accumulated.append("/");
            let encoded_piece = url_encode(data_dir[i3].as_str());
            accumulated.append(encoded_piece.as_str());
            list_of_anchors.append("<a href=\"/browse");
            list_of_anchors.append(accumulated.as_str());
            list_of_anchors.append("\"><strong>");
            list_of_anchors.append(data_dir[i3].as_str());
            list_of_anchors.append("</strong></a>");
            if i3 + 1 < n {
                list_of_anchors.append(" / ");
            }
            proof {
                let acc2 = acc0 + seq!['/'] + url_encoded_of(parts[i3 as int]);
                assert(accumulated@ =~= acc2);
                let anchor = "<a href=\"/browse"@ + acc2 + "\"><strong>"@ + parts[i3 as int]
                    + "</strong></a>"@;
                let sep: Seq<char> = if i3 as int == parts.len() - 1 {
                    Seq::empty()
                } else {
                    " / "@
                };
                assert(list_of_anchors@ =~= out0 + anchor + sep);
                assert(out0 + anchor + sep + anchors_from(parts, i3 as int + 1, acc2) =~= out0
                    + (anchor + sep + anchors_from(parts, i3 as int + 1, acc2)));
            }
            i3 = i3 + 1;
        }
        proof {
            assert(whole =~= list_of_anchors@ + anchors_from(parts, n as int, accumulated@));
            assert(list_of_anchors@ + Seq::<char>::empty() =~= list_of_anchors@);
        }

        let sorted = sort_entries(query.sort_key, query.sort_direction, entries);
        DirectoryViewTemplate {
            parent_directory,
            list_of_anchors,
            display_dirname: dirname,
            encoded_dirname,
            entries: sorted,
            sort_direction: query.sort_direction,
            sort_key: query.sort_key,
        }
    }
}

} // verus!
