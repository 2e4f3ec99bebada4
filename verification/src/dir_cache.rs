use vstd::prelude::*;

use crate::utils::{dec_str, digit_char, digit_str, u64_to_dec};

verus! {

broadcast use vstd::std_specs::vec::group_vec_axioms, vstd::seq::group_seq_axioms;

// ---------------------------------------------------------------------------
// The entry model: an immutable snapshot of one filesystem object.
//
// A snapshot tree is built once, validated on construction, and never mutated
// in place; every aggregate operation (total size, child count, depth) is
// computed on demand from the tree, so it can never go stale independently of
// the tree itself.
// ---------------------------------------------------------------------------

/// A snapshot of one filesystem object: a file or a directory.
#[derive(Debug, PartialEq)]
pub enum CacheEntry {
    File(FileEntry),
    Dir(DirEntry),
}

/// A file inside a snapshot, with the attributes read when it was built.
#[derive(Debug, PartialEq)]
pub struct FileEntry {
    /// Name of the file.
    pub name: String,
    /// UTC time this file was created, in format `%Y-%m-%d [%H:%M:%S]`.
    pub created: String,
    /// Size of this file in bytes.
    pub size: u64,
}

/// A directory inside a snapshot, with the snapshots of its children.
#[derive(Debug, PartialEq)]
pub struct DirEntry {
    /// Name of the directory.
    pub name: String,
    /// UTC time this directory was created, in format `%Y-%m-%d [%H:%M:%S]`.
    pub created: String,
    /// Snapshots of the directory's children, in filesystem enumeration
    /// order (not meaningful until sorted by a consumer).
    pub children: Vec<CacheEntry>,
}

/// The mathematical value of a `CacheEntry`: the same tree with strings as
/// character sequences. All contracts in this crate speak of this model.
pub enum EntryModel {
    File { name: Seq<char>, created: Seq<char>, size: u64 },
    Dir { name: Seq<char>, created: Seq<char>, children: Seq<EntryModel> },
}

/// The mathematical value of one entry.
pub open spec fn model_of(e: CacheEntry) -> EntryModel
    decreases e,
{
    match e {
        CacheEntry::File(f) => EntryModel::File { name: f.name@, created: f.created@, size: f.size },
        CacheEntry::Dir(d) => EntryModel::Dir {
            name: d.name@,
            created: d.created@,
            children: models_of(d.children@),
        },
    }
}

/// The models of a list of entries.
pub open spec fn models_of(s: Seq<CacheEntry>) -> Seq<EntryModel>
    decreases s,
{
    if s.len() == 0 {
        Seq::empty()
    } else {
        models_of(s.drop_last()).push(model_of(s.last()))
    }
}

/// `models_of` maps the list elementwise.
pub proof fn lemma_models_of(s: Seq<CacheEntry>)
    ensures
        models_of(s).len() == s.len(),
        forall|i: int| 0 <= i < s.len() ==> models_of(s)[i] == s[i]@,
    decreases s,
{
    if s.len() > 0 {
        lemma_models_of(s.drop_last());
    }
}

impl View for CacheEntry {
    type V = EntryModel;

    open spec fn view(&self) -> EntryModel {
        model_of(*self)
    }
}

impl EntryModel {
    /// The name of the object this entry describes.
    pub open spec fn name(self) -> Seq<char> {
        match self {
            EntryModel::File { name, .. } => name,
            EntryModel::Dir { name, .. } => name,
        }
    }

    /// The creation timestamp recorded for this entry.
    pub open spec fn created(self) -> Seq<char> {
        match self {
            EntryModel::File { created, .. } => created,
            EntryModel::Dir { created, .. } => created,
        }
    }

    /// Whether this entry describes a directory.
    pub open spec fn is_dir(self) -> bool {
        self is Dir
    }

    /// Whether this entry describes a file.
    pub open spec fn is_file(self) -> bool {
        self is File
    }
}

// ---------------------------------------------------------------------------
// Aggregate operations, defined over the model.
// ---------------------------------------------------------------------------

/// The size of an entry: a file's recorded byte count, or the recursive sum
/// of the sizes of a directory's children.
pub open spec fn entry_size(e: EntryModel) -> nat
    decreases e,
{
    match e {
        EntryModel::File { size, .. } => size as nat,
        EntryModel::Dir { children, .. } => sum_sizes(children),
    }
}

/// The sum of the sizes of a list of entries.
pub open spec fn sum_sizes(s: Seq<EntryModel>) -> nat
    decreases s,
{
    if s.len() == 0 {
        0
    } else {
        sum_sizes(s.drop_last()) + entry_size(s.last())
    }
}

/// The longest chain of nested directories beneath a directory with these
/// children: zero if no child is a directory, else one more than the deepest
/// directory child.
pub open spec fn dir_depth(s: Seq<EntryModel>) -> nat
    decreases s,
{
    if s.len() == 0 {
        0
    } else {
        let rest = dir_depth(s.drop_last());
        let here = depth_contribution(s.last());
        if here > rest {
            here
        } else {
            rest
        }
    }
}

/// What one child adds to its parent's depth: nothing for a file, one more
/// than its own depth for a directory.
pub open spec fn depth_contribution(e: EntryModel) -> nat
    decreases e,
{
    match e {
        EntryModel::File { .. } => 0,
        EntryModel::Dir { children, .. } => dir_depth(children) + 1,
    }
}

// ---------------------------------------------------------------------------
// Well-formedness: what construction establishes and every operation relies
// on.
// ---------------------------------------------------------------------------

/// A valid entry name: non-empty, no path separator, and not a current- or
/// parent-directory token, so a name can never carry a traversal.
pub open spec fn valid_name(name: Seq<char>) -> bool {
    &&& name.len() > 0
    &&& !name.contains('/')
    &&& name != seq!['.']
    &&& name != seq!['.', '.']
}

/// No two entries in the list share a name.
pub open spec fn distinct_names(s: Seq<EntryModel>) -> bool {
    forall|i: int, j: int| 0 <= i < j < s.len() ==> s[i].name() != s[j].name()
}

/// A well-formed entry: its name is valid and, for a directory, its children
/// are well-formed with distinct names, their sizes sum within `u64`, and its
/// depth is computable in `usize` arithmetic.
pub open spec fn entry_wf(e: EntryModel) -> bool
    decreases e,
{
    match e {
        EntryModel::File { name, .. } => valid_name(name),
        EntryModel::Dir { name, children, .. } => {
            &&& valid_name(name)
            &&& entries_wf(children)
            &&& distinct_names(children)
            &&& sum_sizes(children) <= u64::MAX
            &&& dir_depth(children) < usize::MAX
        },
    }
}

/// Every entry in the list is well-formed.
pub open spec fn entries_wf(s: Seq<EntryModel>) -> bool
    decreases s,
{
    forall|i: int| 0 <= i < s.len() ==> entry_wf(#[trigger] s[i])
}

// ---------------------------------------------------------------------------
// Lemmas about sums and depths.
// ---------------------------------------------------------------------------

/// The sum of any prefix of a list never exceeds the sum of the whole list.
pub proof fn lemma_sum_sizes_take_le(s: Seq<EntryModel>, j: int)
    requires
        0 <= j <= s.len(),
    ensures
        sum_sizes(s.take(j)) <= sum_sizes(s),
    decreases s.len() - j,
{
    if j == s.len() {
        assert(s.take(j) =~= s);
    } else {
        assert(s.take(j + 1).drop_last() =~= s.take(j));
        assert(s.take(j + 1).last() == s[j]);
        lemma_sum_sizes_take_le(s, j + 1);
    }
}

/// The depth over any prefix of a list never exceeds the depth over the
/// whole list.
pub proof fn lemma_dir_depth_take_le(s: Seq<EntryModel>, j: int)
    requires
        0 <= j <= s.len(),
    ensures
        dir_depth(s.take(j)) <= dir_depth(s),
    decreases s.len() - j,
{
    if j == s.len() {
        assert(s.take(j) =~= s);
    } else {
        assert(s.take(j + 1).drop_last() =~= s.take(j));
        assert(s.take(j + 1).last() == s[j]);
        lemma_dir_depth_take_le(s, j + 1);
    }
}

/// A directory's size is exactly the sum of its children's sizes — and zero
/// for an empty directory. Size is computed from the tree on demand, so this
/// invariant holds of every constructed tree, with no stored total that
/// could go stale.
pub proof fn lemma_dir_size_is_sum_of_children(name: Seq<char>, created: Seq<char>, children: Seq<EntryModel>)
    ensures
        entry_size(EntryModel::Dir { name, created, children }) == sum_sizes(children),
        children.len() == 0 ==> entry_size(EntryModel::Dir { name, created, children }) == 0,
{
}

// ---------------------------------------------------------------------------
// Executable operations.
// ---------------------------------------------------------------------------

impl CacheEntry {
    /// The total size of this entry in bytes: a file's own size, or the
    /// recursive sum over a directory's children.
    #[verifier::loop_isolation(false)]
    pub fn size(&self) -> (r: u64)
        requires
            entry_wf(self@),
        ensures
            r == entry_size(self@),
        decreases *self,
    {
        match self {
            CacheEntry::File(f) => f.size,
            CacheEntry::Dir(d) => {
                let ghost cs = models_of(d.children@);
                proof {
                    lemma_models_of(d.children@);
                }
                let mut total: u64 = 0;
                let mut i: usize = 0;
                while i < d.children.len()
                    invariant
                        entry_wf(self@),
                        cs == self@->Dir_children,
                        cs == models_of(d.children@),
                        0 <= i <= d.children.len(),
                        cs.len() == d.children.len(),
                        total == sum_sizes(cs.take(i as int)),
                    decreases d.children.len() - i,
                {
                    proof {
                        lemma_models_of(d.children@);
                        assert(entry_wf(cs[i as int]));
                        assert(cs.take(i as int + 1).drop_last() =~= cs.take(i as int));
                        assert(cs.take(i as int + 1).last() == cs[i as int]);
                        lemma_sum_sizes_take_le(cs, i as int + 1);
                    }
                    let child_size = d.children[i].size();
                    total = total + child_size;
                    i = i + 1;
                }
                proof {
                    assert(cs.take(d.children.len() as int) =~= cs);
                }
                total
            },
        }
    }

    /// The creation timestamp recorded for this entry.
    pub fn created(&self) -> (r: &str)
        ensures
            r@ == self@.created(),
    {
        match self {
            CacheEntry::File(f) => f.created.as_str(),
            CacheEntry::Dir(d) => d.created.as_str(),
        }
    }

    /// The name of this entry.
    pub fn name(&self) -> (r: &str)
        ensures
            r@ == self@.name(),
    {
        match self {
            CacheEntry::File(f) => f.name.as_str(),
            CacheEntry::Dir(d) => d.name.as_str(),
        }
    }

    /// Whether this entry is a directory.
    pub fn is_dir(&self) -> (r: bool)
        ensures
            r == self@.is_dir(),
    {
        match self {
            CacheEntry::File(_) => false,
            CacheEntry::Dir(_) => true,
        }
    }

    /// Whether this entry is a file.
    pub fn is_file(&self) -> (r: bool)
        ensures
            r == self@.is_file(),
    {
        match self {
            CacheEntry::File(_) => true,
            CacheEntry::Dir(_) => false,
        }
    }

    /// This entry as a directory. Callers must already know it is one.
    pub fn as_dir(&self) -> (r: &DirEntry)
        requires
            self@.is_dir(),
        ensures
            r@ == self@,
    {
        match self {
            CacheEntry::Dir(entry) => entry,
            CacheEntry::File(_) => unreached(),
        }
    }

    /// This entry as a file. Callers must already know it is one.
    pub fn as_file(&self) -> (r: &FileEntry)
        requires
            self@.is_file(),
        ensures
            self@ == (CacheEntry::File(*r))@,
    {
        match self {
            CacheEntry::File(entry) => entry,
            CacheEntry::Dir(_) => unreached(),
        }
    }
}

impl Clone for CacheEntry {
    /// A deep copy of the subtree, equal to the original in the model.
    #[verifier::loop_isolation(false)]
    fn clone(&self) -> (res: Self)
        ensures
            res@ == self@,
        decreases *self,
    {
        match self {
            CacheEntry::File(f) => CacheEntry::File(
                FileEntry { name: f.name.clone(), created: f.created.clone(), size: f.size },
            ),
            CacheEntry::Dir(d) => {
                let mut children: Vec<CacheEntry> = Vec::new();
                let mut i: usize = 0;
                while i < d.children.len()
                    invariant
                        0 <= i <= d.children.len(),
                        children@.len() == i,
                        models_of(children@) == models_of(d.children@).take(i as int),
                    decreases d.children.len() - i,
                {
                    let c = d.children[i].clone();
                    let ghost prev = children@;
                    children.push(c);
                    proof {
                        lemma_models_of(d.children@);
                        assert(children@.drop_last() =~= prev);
                        assert(models_of(d.children@).take(i as int + 1) =~= models_of(
                            d.children@,
                        ).take(i as int).push(d.children@[i as int]@));
                        assert(models_of(children@) == models_of(prev).push(children@.last()@));
                    }
                    i = i + 1;
                }
                proof {
                    lemma_models_of(d.children@);
                    assert(models_of(d.children@).take(d.children@.len() as int) =~= models_of(
                        d.children@,
                    ));
                }
                CacheEntry::Dir(
                    DirEntry { name: d.name.clone(), created: d.created.clone(), children },
                )
            },
        }
    }
}

/// A deep copy of a list of entries, equal to the original in the model.
#[verifier::loop_isolation(false)]
pub fn clone_entries(v: &Vec<CacheEntry>) -> (res: Vec<CacheEntry>)
    ensures
        models_of(res@) == models_of(v@),
{
    let mut out: Vec<CacheEntry> = Vec::new();
    let mut i: usize = 0;
    while i < v.len()
        invariant
            0 <= i <= v.len(),
            out@.len() == i,
            models_of(out@) == models_of(v@).take(i as int),
        decreases v.len() - i,
    {
        let c = v[i].clone();
        let ghost prev = out@;
        out.push(c);
        proof {
            lemma_models_of(v@);
            assert(out@.drop_last() =~= prev);
            assert(models_of(v@).take(i as int + 1) =~= models_of(v@).take(i as int).push(
                v@[i as int]@,
            ));
            assert(models_of(out@) == models_of(prev).push(out@.last()@));
        }
        i = i + 1;
    }
    proof {
        lemma_models_of(v@);
        assert(models_of(v@).take(v@.len() as int) =~= models_of(v@));
    }
    out
}

impl View for DirEntry {
    type V = EntryModel;

    open spec fn view(&self) -> EntryModel {
        (CacheEntry::Dir(*self))@
    }
}

impl DirEntry {
    /// How many direct children this directory has.
    pub fn children_count(&self) -> (r: usize)
        ensures
            r == self@->Dir_children.len(),
    {
        proof {
            lemma_models_of(self.children@);
        }
        self.children.len()
    }

    /// The longest chain of nested directories beneath this one: zero if no
    /// child is a directory, else one more than the deepest directory child.
    #[verifier::loop_isolation(false)]
    pub fn max_depth(&self) -> (r: usize)
        requires
            entry_wf(self@),
        ensures
            r == dir_depth(self@->Dir_children),
        decreases *self,
    {
        let ghost cs = models_of(self.children@);
        proof {
            lemma_models_of(self.children@);
        }
        let mut best: usize = 0;
        let mut i: usize = 0;
        while i < self.children.len()
            invariant
                entry_wf(self@),
                self@->Dir_children == cs,
                cs == models_of(self.children@),
                0 <= i <= self.children.len(),
                cs.len() == self.children.len(),
                best == dir_depth(cs.take(i as int)),
            decreases self.children.len() - i,
        {
            proof {
                lemma_models_of(self.children@);
                assert(entry_wf(cs[i as int]));
                assert(cs.take(i as int + 1).drop_last() =~= cs.take(i as int));
                assert(cs.take(i as int + 1).last() == cs[i as int]);
                lemma_dir_depth_take_le(cs, i as int + 1);
            }
            match &self.children[i] {
                CacheEntry::Dir(dchild) => {
                    proof {
                        assert(cs[i as int] == model_of(CacheEntry::Dir(*dchild)));
                        assert(depth_contribution(cs[i as int]) == dir_depth(models_of(dchild.children@)) + 1);
                    }
                    let depth = dchild.max_depth() + 1;
                    if depth > best {
                        best = depth;
                    }
                    proof {
                        assert(best == dir_depth(cs.take(i as int + 1)));
                    }
                },
                CacheEntry::File(_) => {
                    proof {
                        assert(depth_contribution(cs[i as int]) == 0);
                        assert(best == dir_depth(cs.take(i as int + 1)));
                    }
                },
            }
            i = i + 1;
        }
        proof {
            assert(cs.take(self.children.len() as int) =~= cs);
        }
        best
    }
}

// ---------------------------------------------------------------------------
// The snapshot builder: validates what the filesystem reported and
// constructs a well-formed entry tree, all-or-nothing. A failure anywhere
// aborts the whole build; no partial trees are produced.
// ---------------------------------------------------------------------------

/// What one filesystem read reported for a directory entry, before
/// validation. Every `None` records a per-entry read failure.
#[derive(Debug)]
pub struct RawEntry {
    /// The entry's name; absent where it was not valid text.
    pub name: Option<String>,
    /// The entry's creation time, already formatted; absent where it could
    /// not be read.
    pub created: Option<String>,
    /// What kind of object the entry is; absent where the file type could
    /// not be read.
    pub kind: Option<RawKind>,
}

/// The kind-specific part of a raw entry.
#[derive(Debug)]
pub enum RawKind {
    /// A file and its byte count.
    File { size: u64 },
    /// A directory and what was read of its children; absent where the
    /// directory could not be read.
    Dir { children: Option<Vec<RawEntry>> },
}

/// Why a snapshot build failed. The failing entry's name is carried where
/// one was readable, and `InChild` wraps a failure with the directory it
/// happened under, so the offending path can be reported.
#[derive(Debug, PartialEq)]
pub enum BuildError {
    /// An entry's name was missing, not valid text, or not usable as a
    /// single path component.
    InvalidName,
    /// The entry's creation time could not be read.
    NoTimestamp { name: String },
    /// The entry's file type could not be read.
    NoFileType { name: String },
    /// The directory's children could not be read.
    UnreadableDir { name: String },
    /// Two children of the directory share a name.
    DuplicateName { name: String },
    /// The directory's total size does not fit in an unsigned 64-bit count.
    TooLarge { name: String },
    /// The directory nesting is too deep to measure.
    TooDeep { name: String },
    /// A child of the named directory failed to build.
    InChild { name: String, cause: Box<BuildError> },
}

/// The mathematical value of a build failure: the same error with strings
/// as character sequences.
pub enum BuildErrorModel {
    InvalidName,
    NoTimestamp { name: Seq<char> },
    NoFileType { name: Seq<char> },
    UnreadableDir { name: Seq<char> },
    DuplicateName { name: Seq<char> },
    TooLarge { name: Seq<char> },
    TooDeep { name: Seq<char> },
    InChild { name: Seq<char>, cause: Box<BuildErrorModel> },
}

/// The mathematical value of one build failure.
pub open spec fn build_error_model(e: BuildError) -> BuildErrorModel
    decreases e,
{
    match e {
        BuildError::InvalidName => BuildErrorModel::InvalidName,
        BuildError::NoTimestamp { name } => BuildErrorModel::NoTimestamp { name: name@ },
        BuildError::NoFileType { name } => BuildErrorModel::NoFileType { name: name@ },
        BuildError::UnreadableDir { name } => BuildErrorModel::UnreadableDir { name: name@ },
        BuildError::DuplicateName { name } => BuildErrorModel::DuplicateName { name: name@ },
        BuildError::TooLarge { name } => BuildErrorModel::TooLarge { name: name@ },
        BuildError::TooDeep { name } => BuildErrorModel::TooDeep { name: name@ },
        BuildError::InChild { name, cause } => BuildErrorModel::InChild {
            name: name@,
            cause: Box::new(build_error_model(*cause)),
        },
    }
}

impl View for BuildError {
    type V = BuildErrorModel;

    open spec fn view(&self) -> BuildErrorModel {
        build_error_model(*self)
    }
}

/// Whether a raw entry will build: every attribute was read, the name is
/// valid, and, for a directory, all children build, with distinct names,
/// sizes summing within `u64`, and a measurable depth.
pub open spec fn raw_wf(r: RawEntry) -> bool
    decreases r,
{
    &&& r.name is Some
    &&& valid_name(r.name.unwrap()@)
    &&& r.created is Some
    &&& r.kind is Some
    &&& match r.kind.unwrap() {
        RawKind::File { .. } => true,
        RawKind::Dir { children } => {
            &&& children is Some
            &&& raws_wf(children.unwrap()@)
            &&& distinct_names(raw_models(children.unwrap()@))
            &&& sum_sizes(raw_models(children.unwrap()@)) <= u64::MAX
            &&& dir_depth(raw_models(children.unwrap()@)) < usize::MAX
        },
    }
}

/// Every raw entry in the list will build.
pub open spec fn raws_wf(s: Seq<RawEntry>) -> bool
    decreases s,
{
    forall|i: int| 0 <= i < s.len() ==> raw_wf(#[trigger] s[i])
}

/// The entry a raw entry builds into. Only meaningful where the raw entry
/// is well-formed; missing attributes are defaulted so the function is
/// total.
pub open spec fn raw_model(r: RawEntry) -> EntryModel
    decreases r,
{
    let name = if r.name is Some {
        r.name.unwrap()@
    } else {
        Seq::<char>::empty()
    };
    let created = if r.created is Some {
        r.created.unwrap()@
    } else {
        Seq::<char>::empty()
    };
    match r.kind {
        Some(RawKind::File { size }) => EntryModel::File { name, created, size },
        Some(RawKind::Dir { children: Some(cs) }) => EntryModel::Dir {
            name,
            created,
            children: raw_models(cs@),
        },
        Some(RawKind::Dir { children: None }) => EntryModel::Dir {
            name,
            created,
            children: Seq::empty(),
        },
        None => EntryModel::File { name, created, size: 0 },
    }
}

/// The entries a list of raw entries builds into.
pub open spec fn raw_models(s: Seq<RawEntry>) -> Seq<EntryModel>
    decreases s,
{
    if s.len() == 0 {
        Seq::empty()
    } else {
        raw_models(s.drop_last()).push(raw_model(s.last()))
    }
}

/// `raw_models` maps the list elementwise.
pub proof fn lemma_raw_models(s: Seq<RawEntry>)
    ensures
        raw_models(s).len() == s.len(),
        forall|i: int| 0 <= i < s.len() ==> raw_models(s)[i] == raw_model(s[i]),
    decreases s,
{
    if s.len() > 0 {
        lemma_raw_models(s.drop_last());
    }
}

/// The first raw entry in the list that will not build, if any.
pub open spec fn first_bad(s: Seq<RawEntry>) -> Option<RawEntry>
    decreases s,
{
    if s.len() == 0 {
        None
    } else if !raw_wf(s.first()) {
        Some(s.first())
    } else {
        first_bad(s.drop_first())
    }
}

/// Where the first `i` entries all build and entry `i` does not, entry `i`
/// is the first failing one.
pub proof fn lemma_first_bad_at(s: Seq<RawEntry>, i: int)
    requires
        0 <= i < s.len(),
        forall|k: int| 0 <= k < i ==> raw_wf(#[trigger] s[k]),
        !raw_wf(s[i]),
    ensures
        first_bad(s) == Some(s[i]),
    decreases i,
{
    if i > 0 {
        lemma_first_bad_at(s.drop_first(), i - 1);
    }
}

/// Where every entry builds, none fails first.
pub proof fn lemma_first_bad_none(s: Seq<RawEntry>)
    requires
        forall|k: int| 0 <= k < s.len() ==> raw_wf(#[trigger] s[k]),
    ensures
        first_bad(s) is None,
    decreases s,
{
    if s.len() > 0 {
        lemma_first_bad_none(s.drop_first());
    }
}

/// The name of the first entry that shares its name with a later entry, if
/// any two entries share a name.
pub open spec fn first_dup_name(ms: Seq<EntryModel>) -> Option<Seq<char>>
    decreases ms,
{
    if ms.len() == 0 {
        None
    } else if exists|j: int| 1 <= j < ms.len() && (#[trigger] ms[j]).name() == ms[0].name() {
        Some(ms[0].name())
    } else {
        first_dup_name(ms.drop_first())
    }
}

/// What the first failing entry is, is one of the entries.
pub proof fn lemma_first_bad_member(s: Seq<RawEntry>)
    requires
        first_bad(s) is Some,
    ensures
        exists|i: int| 0 <= i < s.len() && first_bad(s) == Some(#[trigger] s[i]),
    decreases s,
{
    if s.len() > 0 {
        if !raw_wf(s.first()) {
            assert(first_bad(s) == Some(s[0]));
        } else {
            lemma_first_bad_member(s.drop_first());
            let i = choose|i: int|
                0 <= i < s.drop_first().len() && first_bad(s.drop_first()) == Some(
                    #[trigger] s.drop_first()[i],
                );
            assert(first_bad(s) == Some(s[i + 1]));
        }
    }
}

/// Where no pair before position `a` collides and `a`, `b` collide, the
/// first duplicated name is that of entry `a`.
pub proof fn lemma_first_dup_at(ms: Seq<EntryModel>, a: int, b: int)
    requires
        0 <= a < b < ms.len(),
        ms[a].name() == ms[b].name(),
        forall|x: int, y: int| 0 <= x < y < ms.len() && x < a ==> ms[x].name() != ms[y].name(),
    ensures
        first_dup_name(ms) == Some(ms[a].name()),
    decreases a,
{
    if a == 0 {
        assert(1 <= b < ms.len() && (#[trigger] ms[b]).name() == ms[0].name());
    } else {
        assert(forall|j: int| 1 <= j < ms.len() ==> (#[trigger] ms[j]).name() != ms[0].name());
        lemma_first_dup_at(ms.drop_first(), a - 1, b - 1);
    }
}

/// Where no two entries share a name, there is no first duplicated name.
pub proof fn lemma_first_dup_none(ms: Seq<EntryModel>)
    requires
        distinct_names(ms),
    ensures
        first_dup_name(ms) is None,
    decreases ms,
{
    if ms.len() > 0 {
        assert(forall|j: int| 1 <= j < ms.len() ==> (#[trigger] ms[j]).name() != ms[0].name());
        assert(distinct_names(ms.drop_first()));
        lemma_first_dup_none(ms.drop_first());
    }
}

/// The failure a raw entry builds into, in the order the checks are made:
/// the entry's own attributes, then its children one by one, then duplicate
/// names among them, then the aggregate bounds. Only meaningful where the
/// entry is not well-formed.
pub open spec fn build_err_model(r: RawEntry) -> BuildErrorModel
    decreases r via build_err_model_dec
{
    if r.name is None || !valid_name(r.name.unwrap()@) {
        BuildErrorModel::InvalidName
    } else {
        let name = r.name.unwrap()@;
        if r.created is None {
            BuildErrorModel::NoTimestamp { name }
        } else if r.kind is None {
            BuildErrorModel::NoFileType { name }
        } else {
            match r.kind.unwrap() {
                RawKind::File { .. } => BuildErrorModel::InvalidName,
                RawKind::Dir { children } => {
                    if children is None {
                        BuildErrorModel::UnreadableDir { name }
                    } else {
                        let kids = children.unwrap();
                        let ms = raw_models(kids@);
                        if first_bad(kids@) is Some {
                            BuildErrorModel::InChild {
                                name,
                                cause: Box::new(build_err_model(first_bad(kids@).unwrap())),
                            }
                        } else if first_dup_name(ms) is Some {
                            BuildErrorModel::DuplicateName { name: first_dup_name(ms).unwrap() }
                        } else if sum_sizes(ms) > u64::MAX {
                            BuildErrorModel::TooLarge { name }
                        } else {
                            BuildErrorModel::TooDeep { name }
                        }
                    }
                },
            }
        }
    }
}

#[via_fn]
proof fn build_err_model_dec(r: RawEntry) {
    if !(r.name is None || !valid_name(r.name.unwrap()@)) && !(r.created is None) && !(
    r.kind is None) {
        match r.kind.unwrap() {
            RawKind::File { .. } => {},
            RawKind::Dir { children } => {
                if children is Some {
                    let kids = children.unwrap();
                    if first_bad(kids@) is Some {
                        lemma_first_bad_member(kids@);
                        let i = choose|i: int|
                            0 <= i < kids@.len() && first_bad(kids@) == Some(#[trigger] kids@[i]);
                        assert(decreases_to!(r => kids));
                        assert(decreases_to!(kids => kids@[i]));
                        assert(decreases_to!(r => first_bad(kids@).unwrap()));
                    }
                }
            },
        }
    }
}

/// Whether the name can stand as an entry name: non-empty, no separator,
/// and not a current- or parent-directory token.
#[verifier::loop_isolation(false)]
pub fn is_valid_name(n: &str) -> (r: bool)
    ensures
        r == valid_name(n@),
{
    let len = n.unicode_len();
    if len == 0 {
        return false;
    }
    if len == 1 && n.get_char(0) == '.' {
        proof {
            assert(n@ =~= seq!['.']);
        }
        return false;
    }
    if len == 2 && n.get_char(0) == '.' && n.get_char(1) == '.' {
        proof {
            assert(n@ =~= seq!['.', '.']);
        }
        return false;
    }
    let mut i: usize = 0;
    while i < len
        invariant
            0 <= i <= len,
            len == n@.len(),
            forall|k: int| 0 <= k < i ==> n@[k] != '/',
        decreases len - i,
    {
        if n.get_char(i) == '/' {
            proof {
                assert(n@[i as int] == '/');
            }
            return false;
        }
        i = i + 1;
    }
    proof {
        if len == 1 {
            assert(n@[0] != '.');
        }
        if len == 2 {
            assert(n@[0] != '.' || n@[1] != '.');
        }
        assert(!n@.contains('/'));
    }
    true
}

impl CacheEntry {
    /// Builds one entry from what the filesystem reported, validating as it
    /// goes: any missing attribute, invalid name, failing child, duplicate
    /// child name or unrepresentable aggregate aborts the build.
    #[verifier::loop_isolation(false)]
    pub fn build(raw: &RawEntry) -> (r: Result<CacheEntry, BuildError>)
        ensures
            r is Ok <==> raw_wf(*raw),
            r is Ok ==> r.unwrap()@ == raw_model(*raw) && entry_wf(r.unwrap()@),
            r is Err ==> r->Err_0@ == build_err_model(*raw),
        decreases *raw,
    {
        let name: &String = match &raw.name {
            None => {
                return Err(BuildError::InvalidName);
            },
            Some(n) => n,
        };
        if !is_valid_name(name.as_str()) {
            return Err(BuildError::InvalidName);
        }
        let created: &String = match &raw.created {
            None => {
                return Err(BuildError::NoTimestamp { name: name.clone() });
            },
            Some(c) => c,
        };
        let kind: &RawKind = match &raw.kind {
            None => {
                return Err(BuildError::NoFileType { name: name.clone() });
            },
            Some(k) => k,
        };
        match kind {
            RawKind::File { size } => Ok(
                CacheEntry::File(
                    FileEntry { name: name.clone(), created: created.clone(), size: *size },
                ),
            ),
            RawKind::Dir { children } => {
                let kids: &Vec<RawEntry> = match children {
                    None => {
                        return Err(BuildError::UnreadableDir { name: name.clone() });
                    },
                    Some(k) => k,
                };
                let ghost rm = raw_models(kids@);
                proof {
                    lemma_raw_models(kids@);
                }
                let mut built: Vec<CacheEntry> = Vec::new();
                let mut names: Vec<String> = Vec::new();
                let mut i: usize = 0;
                while i < kids.len()
                    invariant
                        0 <= i <= kids.len(),
                        built@.len() == i,
                        names@.len() == i,
                        forall|j: int| 0 <= j < i ==> raw_wf(#[trigger] kids@[j]),
                        models_of(built@) == rm.take(i as int),
                        entries_wf(models_of(built@)),
                        forall|j: int|
                            0 <= j < i ==> (#[trigger] names@[j])@ == rm[j].name(),
                    decreases kids.len() - i,
                {
                    let child = match CacheEntry::build(&kids[i]) {
                        Err(e) => {
                            proof {
                                lemma_first_bad_at(kids@, i as int);
                            }
                            return Err(
                                BuildError::InChild { name: name.clone(), cause: Box::new(e) },
                            );
                        },
                        Ok(c) => c,
                    };
                    let child_name: String = match &child {
                        CacheEntry::File(f) => f.name.clone(),
                        CacheEntry::Dir(d) => d.name.clone(),
                    };
                    let ghost prev = built@;
                    built.push(child);
                    names.push(child_name);
                    proof {
                        assert(built@.drop_last() =~= prev);
                        assert(models_of(built@) == models_of(prev).push(built@.last()@));
                        assert(rm.take(i as int + 1) =~= rm.take(i as int).push(rm[i as int]));
                        assert(entries_wf(models_of(built@)));
                    }
                    i = i + 1;
                }
                proof {
                    assert(rm.take(kids@.len() as int) =~= rm);
                }
                // no two children may share a name
                let mut a: usize = 0;
                while a < names.len()
                    invariant
                        0 <= a <= names@.len(),
                        names@.len() == rm.len(),
                        forall|x: int, y: int|
                            0 <= x < y < names@.len() && x < a ==> rm[x].name() != rm[y].name(),
                    decreases names.len() - a,
                {
                    let mut b: usize = a + 1;
                    while b < names.len()
                        invariant
                            a < b <= names@.len(),
                            forall|y: int| a < y < b ==> rm[a as int].name() != rm[y].name(),
                        decreases names.len() - b,
                    {
                        if names[a] == names[b] {
                            proof {
                                lemma_first_bad_none(kids@);
                                lemma_first_dup_at(rm, a as int, b as int);
                            }
                            return Err(BuildError::DuplicateName { name: names[a].clone() });
                        }
                        b = b + 1;
                    }
                    a = a + 1;
                }
                // the children's sizes must sum within a 64-bit count
                let mut total: u64 = 0;
                let mut i2: usize = 0;
                while i2 < built.len()
                    invariant
                        0 <= i2 <= built@.len(),
                        built@.len() == rm.len(),
                        models_of(built@) == rm,
                        entries_wf(rm),
                        total == sum_sizes(rm.take(i2 as int)),
                    decreases built.len() - i2,
                {
                    proof {
                        lemma_models_of(built@);
                        assert(entry_wf(rm[i2 as int]));
                        assert(rm.take(i2 as int + 1).drop_last() =~= rm.take(i2 as int));
                        assert(rm.take(i2 as int + 1).last() == rm[i2 as int]);
                    }
                    let child_size = built[i2].size();
                    if child_size > u64::MAX - total {
                        proof {
                            lemma_sum_sizes_take_le(rm, i2 as int + 1);
                            lemma_first_bad_none(kids@);
                            lemma_first_dup_none(rm);
                        }
                        return Err(BuildError::TooLarge { name: name.clone() });
                    }
                    total = total + child_size;
                    i2 = i2 + 1;
                }
                proof {
                    assert(rm.take(rm.len() as int) =~= rm);
                }
                // the nesting depth must be measurable
                let mut depth: usize = 0;
                let mut i3: usize = 0;
                while i3 < built.len()
                    invariant
                        0 <= i3 <= built@.len(),
                        built@.len() == rm.len(),
                        models_of(built@) == rm,
                        entries_wf(rm),
                        depth == dir_depth(rm.take(i3 as int)),
                        depth <= usize::MAX,
                    decreases built.len() - i3,
                {
                    proof {
                        lemma_models_of(built@);
                        assert(entry_wf(rm[i3 as int]));
                        assert(rm.take(i3 as int + 1).drop_last() =~= rm.take(i3 as int));
                        assert(rm.take(i3 as int + 1).last() == rm[i3 as int]);
                    }
                    match &built[i3] {
                        CacheEntry::Dir(dchild) => {
                            proof {
                                assert(rm[i3 as int] == model_of(CacheEntry::Dir(*dchild)));
                                assert(depth_contribution(rm[i3 as int]) == dir_depth(
                                    models_of(dchild.children@),
                                ) + 1);
                            }
                            let d = dchild.max_depth() + 1;
                            if d > depth {
                                depth = d;
                            }
                            proof {
                                assert(depth == dir_depth(rm.take(i3 as int + 1)));
                            }
                        },
                        CacheEntry::File(_) => {
                            proof {
                                assert(depth_contribution(rm[i3 as int]) == 0);
                                assert(depth == dir_depth(rm.take(i3 as int + 1)));
                            }
                        },
                    }
                    i3 = i3 + 1;
                }
                proof {
                    assert(rm.take(rm.len() as int) =~= rm);
                }
                if depth == usize::MAX {
                    proof {
                        lemma_first_bad_none(kids@);
                        lemma_first_dup_none(rm);
                    }
                    return Err(BuildError::TooDeep { name: name.clone() });
                }
                let entry = CacheEntry::Dir(
                    DirEntry { name: name.clone(), created: created.clone(), children: built },
                );
                proof {
                    assert(entry@ == raw_model(*raw));
                    assert(entry_wf(entry@));
                }
                Ok(entry)
            },
        }
    }
}

/// Builds a whole snapshot from what one directory read reported: every
/// entry must build, or the build of the snapshot fails as a whole and no
/// partial snapshot is produced.
#[verifier::loop_isolation(false)]
pub fn build_entries(raws: &Vec<RawEntry>) -> (r: Result<Vec<CacheEntry>, BuildError>)
    ensures
        r is Ok <==> raws_wf(raws@),
        r is Ok ==> models_of(r.unwrap()@) == raw_models(raws@) && entries_wf(
            models_of(r.unwrap()@),
        ),
        r is Err ==> first_bad(raws@) is Some && r->Err_0@ == build_err_model(
            first_bad(raws@).unwrap(),
        ),
{
    let ghost rm = raw_models(raws@);
    proof {
        lemma_raw_models(raws@);
    }
    let mut built: Vec<CacheEntry> = Vec::new();
    let mut i: usize = 0;
    while i < raws.len()
        invariant
            0 <= i <= raws@.len(),
            built@.len() == i,
            forall|j: int| 0 <= j < i ==> raw_wf(#[trigger] raws@[j]),
            models_of(built@) == rm.take(i as int),
            entries_wf(models_of(built@)),
        decreases raws.len() - i,
    {
        let child = match CacheEntry::build(&raws[i]) {
            Err(e) => {
                proof {
                    lemma_first_bad_at(raws@, i as int);
                }
                return Err(e);
            },
            Ok(c) => c,
        };
        let ghost prev = built@;
        built.push(child);
        proof {
            assert(built@.drop_last() =~= prev);
            assert(models_of(built@) == models_of(prev).push(built@.last()@));
            assert(rm.take(i as int + 1) =~= rm.take(i as int).push(rm[i as int]));
            assert(entries_wf(models_of(built@)));
        }
        i = i + 1;
    }
    proof {
        assert(rm.take(raws@.len() as int) =~= rm);
    }
    Ok(built)
}

// ---------------------------------------------------------------------------
// Human-readable sizes.
// ---------------------------------------------------------------------------

/// The value in tenths of `unit`, rounded to nearest with ties to even —
/// the rounding that one-decimal formatting uses.
pub open spec fn tenths_of(n: int, unit: int) -> int {
    let q = (n * 10) / unit;
    let r = (n * 10) % unit;
    if 2 * r > unit {
        q + 1
    } else if 2 * r < unit {
        q
    } else if q % 2 == 0 {
        q
    } else {
        q + 1
    }
}

/// `n / unit` with one decimal place.
pub open spec fn scaled_str(n: int, unit: int) -> Seq<char> {
    let t = tenths_of(n, unit);
    dec_str(t / 10) + seq!['.'] + seq![digit_char(t % 10)]
}

/// A size as text: bytes below one KiB; then KiB, MiB and GiB with one
/// decimal place; a refusal for a TiB or more.
pub open spec fn size_str_spec(n: u64) -> Seq<char> {
    if n < 1024 {
        dec_str(n as int) + " B"@
    } else if n < 1048576 {
        scaled_str(n as int, 1024) + " KiB"@
    } else if n < 1073741824 {
        scaled_str(n as int, 1048576) + " MiB"@
    } else if n < 1099511627776 {
        scaled_str(n as int, 1073741824) + " GiB"@
    } else {
        "You really shouldn't be serving files that big with this tool..."@
    }
}

/// `n / unit` with one decimal place, rounded to nearest, ties to even.
fn scaled_string(n: u64, unit: u64) -> (r: String)
    requires
        1 <= unit <= 1073741824,
        n < unit * 1024,
    ensures
        r@ == scaled_str(n as int, unit as int),
{
    let ten = n * 10;
    let q = ten / unit;
    let rm = ten % unit;
    let t: u64 = if 2 * rm > unit {
        q + 1
    } else if 2 * rm < unit {
        q
    } else if q % 2 == 0 {
        q
    } else {
        q + 1
    };
    let mut s = u64_to_dec(t / 10);
    s.append(".");
    s.append(digit_str(t % 10));
    proof {
        reveal_strlit(".");
        assert("."@ =~= seq!['.']);
    }
    s
}

impl CacheEntry {
    /// This entry's total size as text: bytes below one KiB, then KiB, MiB
    /// and GiB with one decimal place.
    pub fn size_str(&self) -> (r: String)
        requires
            entry_wf(self@),
        ensures
            r@ == size_str_spec(entry_size(self@) as u64),
    {
        let size = self.size();
        if size < 1024 {
            let mut s = u64_to_dec(size);
            s.append(" B");
            s
        } else if size < 1048576 {
            let mut s = scaled_string(size, 1024);
            s.append(" KiB");
            s
        } else if size < 1073741824 {
            let mut s = scaled_string(size, 1048576);
            s.append(" MiB");
            s
        } else if size < 1099511627776 {
            let mut s = scaled_string(size, 1073741824);
            s.append(" GiB");
            s
        } else {
            "You really shouldn't be serving files that big with this tool...".to_owned()
        }
    }
}

} // verus!
