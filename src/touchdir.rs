use vstd::prelude::*;

use crate::path::{base_name, base_name_of, file_name_for, is_same_path, join_path, joined, same_path};

verus! {

/// Why a run could not go on.
#[derive(Debug, PartialEq, Eq)]
pub enum TouchdirError {
    /// The operating system refused an operation; holds its own account of why.
    Io(String),
    /// The directory has no final segment to name the files after (the root,
    /// the current directory written as `.`, or a path ending in `..`).
    NoBaseName(String),
}

/// The text that reports an error to a person.
pub open spec fn error_text(e: TouchdirError) -> Seq<char> {
    match e {
        TouchdirError::Io(t) => "IO error: "@ + t@,
        TouchdirError::NoBaseName(d) => "no directory name in path: "@ + d@,
    }
}

impl TouchdirError {
    /// The text that reports this error to a person.
    pub fn message(&self) -> (r: String)
        ensures
            r@ == error_text(*self),
    {
        match self {
            TouchdirError::Io(t) => String::from_str("IO error: ").concat(t.as_str()),
            TouchdirError::NoBaseName(d) => String::from_str("no directory name in path: ").concat(
                d.as_str(),
            ),
        }
    }
}

/// What a run does with the planned files.
#[derive(Clone, Copy, Debug, PartialEq, Eq, Structural)]
pub enum TouchdirMode {
    /// Create each planned file, empty.
    Create,
    /// Print each planned path instead of creating it.
    Dryrun,
}

impl TouchdirMode {
    /// The mode selected by the dry-run flag.
    pub fn from_dryrun_bool(dryrun: bool) -> (r: Self)
        ensures
            r == (if dryrun { TouchdirMode::Dryrun } else { TouchdirMode::Create }),
    {
        if dryrun {
            TouchdirMode::Dryrun
        } else {
            TouchdirMode::Create
        }
    }
}

/// One step of a run, for the caller to carry out in order.
#[derive(Debug, PartialEq, Eq)]
pub enum Action {
    /// Create (or truncate) an empty file at this path.
    Create(String),
    /// Write this path as one line of output.
    Print(String),
}

impl Action {
    /// The path the step is about.
    pub open spec fn path(&self) -> Seq<char> {
        match self {
            Action::Create(p) => p@,
            Action::Print(p) => p@,
        }
    }

    /// The step creates a file.
    pub open spec fn creates(&self) -> bool {
        self is Create
    }
}

/// The file that `ext` asks for in `dir`, whose base name is `base`.
pub open spec fn target(dir: Seq<char>, base: Seq<char>, ext: Seq<char>) -> Seq<char> {
    joined(dir, base + seq!['.'] + ext)
}

/// Some path of `ps` is the same path as `p`.
pub open spec fn holds_path(ps: Seq<Seq<char>>, p: Seq<char>) -> bool {
    exists|k: int| 0 <= k < ps.len() && same_path(#[trigger] ps[k], p)
}

/// `ps` with `p` added at the end, unless it already holds that path.
pub open spec fn add_path(ps: Seq<Seq<char>>, p: Seq<char>) -> Seq<Seq<char>> {
    if holds_path(ps, p) {
        ps
    } else {
        ps.push(p)
    }
}

/// No two paths of `ps` are the same path.
pub open spec fn distinct_paths(ps: Seq<Seq<char>>) -> bool {
    forall|i: int, j: int|
        0 <= i < ps.len() && 0 <= j < ps.len() && i != j ==> !same_path(
            #[trigger] ps[i],
            #[trigger] ps[j],
        )
}

/// `ps` with the file of each extension added in turn.
pub open spec fn add_targets(
    ps: Seq<Seq<char>>,
    dir: Seq<char>,
    base: Seq<char>,
    exts: Seq<Seq<char>>,
) -> Seq<Seq<char>>
    decreases exts.len(),
{
    if exts.len() == 0 {
        ps
    } else {
        add_path(add_targets(ps, dir, base, exts.drop_last()), target(dir, base, exts.last()))
    }
}

/// A mode and the files planned so far.
pub struct Touchdir {
    mode: TouchdirMode,
    filepaths: Vec<String>,
}

impl Touchdir {
    /// The mode the run was made with.
    pub closed spec fn spec_mode(&self) -> TouchdirMode {
        self.mode
    }

    /// The planned paths, in the order they were first asked for.
    pub closed spec fn paths(&self) -> Seq<Seq<char>> {
        self.filepaths.deep_view()
    }

    /// A run in `mode` with no file planned yet.
    pub fn new(mode: TouchdirMode) -> (r: Self)
        ensures
            r.spec_mode() == mode,
            r.paths() == Seq::<Seq<char>>::empty(),
            distinct_paths(r.paths()),
    {
        let r = Touchdir { mode, filepaths: Vec::new() };
        assert(r.paths() =~= Seq::<Seq<char>>::empty());
        r
    }

    fn holds(&self, p: &str) -> (r: bool)
        ensures
            r == holds_path(self.paths(), p@),
    {
        let mut i: usize = 0;
        while i < self.filepaths.len()
            invariant
                i <= self.filepaths.len(),
                forall|k: int| 0 <= k < i ==> !same_path(#[trigger] self.paths()[k], p@),
            decreases self.filepaths.len() - i,
        {
            if is_same_path(self.filepaths[i].as_str(), p) {
                assert(self.paths()[i as int] == self.filepaths@[i as int]@);
                return true;
            }
            i = i + 1;
        }
        false
    }

    /// Plans the file `<base>.<extension>` inside `directory` for each
    /// extension, skipping any whose path is already planned. `directory` is
    /// taken as it is written: the caller puts the current directory's path in
    /// place of `.` beforehand. Fails when `directory` has no final segment.
    pub fn add_extensions(self, directory: String, extensions: Vec<String>) -> (r: Result<
        Self,
        TouchdirError,
    >)
        ensures
            match base_name(directory@) {
                None => r == Err::<Self, TouchdirError>(TouchdirError::NoBaseName(directory)),
                Some(base) => r is Ok && r->Ok_0.spec_mode() == self.spec_mode()
                    && r->Ok_0.paths() == add_targets(
                    self.paths(),
                    directory@,
                    base,
                    extensions.deep_view(),
                ) && (distinct_paths(self.paths()) ==> distinct_paths(r->Ok_0.paths())),
            },
    {
        let base = match base_name_of(directory.as_str()) {
            None => {
                return Err(TouchdirError::NoBaseName(directory));
            },
            Some(b) => b,
        };
        let mut plan = self;
        let ghost start = plan.paths();
        let ghost mode = plan.spec_mode();
        let ghost exts = extensions.deep_view();
        let mut i: usize = 0;
        assert(exts.take(0) =~= Seq::<Seq<char>>::empty());
        while i < extensions.len()
            invariant
                i <= extensions.len(),
                exts == extensions.deep_view(),
                plan.spec_mode() == mode,
                Some(base@) == base_name(directory@),
                plan.paths() == add_targets(start, directory@, base@, exts.take(i as int)),
            decreases extensions.len() - i,
        {
            let name = file_name_for(base.as_str(), extensions[i].as_str());
            let filename = join_path(directory.as_str(), name.as_str());
            assert(exts.take(i + 1).drop_last() =~= exts.take(i as int));
            assert(exts.take(i + 1).last() == extensions@[i as int]@);
            if !plan.holds(filename.as_str()) {
                let ghost before = plan.paths();
                plan.filepaths.push(filename);
                assert(plan.paths() =~= before.push(filename@));
            }
            i = i + 1;
        }
        assert(exts.take(extensions.len() as int) =~= exts);
        proof {
            if distinct_paths(start) {
                lemma_add_targets_distinct(start, directory@, base@, exts);
            }
        }
        Ok(plan)
    }

    /// The steps of the run, one for each planned path in planning order: a
    /// file to create in create mode, a line to print in dry-run mode.
    pub fn run(&self) -> (r: Vec<Action>)
        ensures
            r@.len() == self.paths().len(),
            forall|k: int|
                #![trigger r@[k]]
                0 <= k < r@.len() ==> r@[k].path() == self.paths()[k] && r@[k].creates() == (
                self.spec_mode() == TouchdirMode::Create),
    {
        let mut r: Vec<Action> = Vec::new();
        let mut i: usize = 0;
        while i < self.filepaths.len()
            invariant
                i <= self.filepaths.len(),
                r@.len() == i,
                forall|k: int|
                    #![trigger r@[k]]
                    0 <= k < i ==> r@[k].path() == self.paths()[k] && r@[k].creates() == (
                    self.spec_mode() == TouchdirMode::Create),
            decreases self.filepaths.len() - i,
        {
            let p = self.filepaths[i].clone();
            match self.mode {
                TouchdirMode::Create => r.push(Action::Create(p)),
                TouchdirMode::Dryrun => r.push(Action::Print(p)),
            }
            i = i + 1;
        }
        r
    }
}

/// Whether `directory` stands for the current working directory: empty, or `.`.
pub fn names_current_dir(directory: &str) -> (r: bool)
    ensures
        r == (directory@.len() == 0 || directory@ == seq!['.']),
{
    let n = directory.unicode_len();
    if n == 0 {
        true
    } else if n == 1 && directory.get_char(0) == '.' {
        assert(directory@ =~= seq!['.']);
        true
    } else {
        assert(n != 1 ==> directory@ != seq!['.']);
        false
    }
}

/// Adding files never puts two spellings of one path into the plan.
pub proof fn lemma_add_targets_distinct(
    ps: Seq<Seq<char>>,
    dir: Seq<char>,
    base: Seq<char>,
    exts: Seq<Seq<char>>,
)
    requires
        distinct_paths(ps),
    ensures
        distinct_paths(add_targets(ps, dir, base, exts)),
    decreases exts.len(),
{
    if exts.len() > 0 {
        lemma_add_targets_distinct(ps, dir, base, exts.drop_last());
        let prev = add_targets(ps, dir, base, exts.drop_last());
        let t = target(dir, base, exts.last());
        if !holds_path(prev, t) {
            let next = prev.push(t);
            assert forall|i: int, j: int|
                0 <= i < next.len() && 0 <= j < next.len() && i != j implies !same_path(
                #[trigger] next[i],
                #[trigger] next[j],
            ) by {
                if i == prev.len() {
                    assert(!same_path(prev[j], t));
                } else if j == prev.len() {
                    assert(!same_path(prev[i], t));
                } else {
                    assert(next[i] == prev[i] && next[j] == prev[j]);
                }
            }
        }
    }
}

/// No two different extensions of `exts` lead to the same path in `dir`.
pub open spec fn paths_differ(dir: Seq<char>, base: Seq<char>, exts: Seq<Seq<char>>) -> bool {
    forall|i: int, j: int|
        0 <= i < exts.len() && 0 <= j < exts.len() && same_path(
            #[trigger] target(dir, base, exts[i]),
            #[trigger] target(dir, base, exts[j]),
        ) ==> exts[i] == exts[j]
}

proof fn lemma_plan_counts_distinct(dir: Seq<char>, base: Seq<char>, exts: Seq<Seq<char>>)
    requires
        paths_differ(dir, base, exts),
    ensures
        add_targets(seq![], dir, base, exts).len() == exts.to_set().len(),
        forall|k: int|
            0 <= k < add_targets(seq![], dir, base, exts).len() ==> exists|j: int|
                0 <= j < exts.len() && #[trigger] add_targets(seq![], dir, base, exts)[k] == target(
                    dir,
                    base,
                    exts[j],
                ),
        forall|j: int|
            0 <= j < exts.len() ==> holds_path(
                add_targets(seq![], dir, base, exts),
                target(dir, base, #[trigger] exts[j]),
            ),
    decreases exts.len(),
{
    let ps = add_targets(seq![], dir, base, exts);
    if exts.len() == 0 {
        assert(exts.to_set() =~= Set::<Seq<char>>::empty());
    } else {
        let front = exts.drop_last();
        let e = exts.last();
        let t = target(dir, base, e);
        assert forall|i: int, j: int|
            0 <= i < front.len() && 0 <= j < front.len() && same_path(
                #[trigger] target(dir, base, front[i]),
                #[trigger] target(dir, base, front[j]),
            ) implies front[i] == front[j] by {
            assert(front[i] == exts[i] && front[j] == exts[j]);
        }
        lemma_plan_counts_distinct(dir, base, front);
        let prev = add_targets(seq![], dir, base, front);
        assert(front.push(e) =~= exts);
        front.lemma_push_to_set_commute(e);
        vstd::seq_lib::seq_to_set_is_finite(front);
        if front.to_set().contains(e) {
            let j = choose|j: int| 0 <= j < front.len() && front[j] == e;
            assert(holds_path(prev, target(dir, base, front[j])));
            assert(ps == prev);
        } else {
            assert(!holds_path(prev, t)) by {
                if holds_path(prev, t) {
                    let k = choose|k: int| 0 <= k < prev.len() && same_path(#[trigger] prev[k], t);
                    let j = choose|j: int|
                        0 <= j < front.len() && prev[k] == target(dir, base, #[trigger] front[j]);
                    assert(front[j] == exts[j]);
                    assert(exts[exts.len() - 1] == e);
                    assert(same_path(
                        target(dir, base, exts[j]),
                        target(dir, base, exts[exts.len() - 1]),
                    ));
                    assert(front.to_set().contains(front[j]));
                }
            }
            assert(ps == prev.push(t));
            assert(exts[exts.len() - 1] == e);
        }
        assert forall|j: int| 0 <= j < exts.len() implies holds_path(
            ps,
            target(dir, base, #[trigger] exts[j]),
        ) by {
            if j < exts.len() - 1 {
                assert(exts[j] == front[j]);
                let k = choose|k: int|
                    0 <= k < prev.len() && same_path(#[trigger] prev[k], target(dir, base, front[j]));
                assert(ps[k] == prev[k]);
            } else if !holds_path(prev, t) {
                assert(ps[prev.len() as int] == t);
            } else {
                let k = choose|k: int| 0 <= k < prev.len() && same_path(#[trigger] prev[k], t);
                assert(ps[k] == prev[k]);
            }
        }
        assert forall|k: int| #![trigger ps[k]] 0 <= k < ps.len() implies exists|j: int|
            0 <= j < exts.len() && ps[k] == target(dir, base, #[trigger] exts[j]) by {
            if k < prev.len() {
                let j = choose|j: int|
                    0 <= j < front.len() && prev[k] == target(dir, base, #[trigger] front[j]);
                assert(exts[j] == front[j]);
            } else {
                assert(exts[exts.len() - 1] == e);
            }
        }
    }
}

/// Planning from nothing gives one file for each distinct extension, as long
/// as different extensions lead to different paths.
pub proof fn lemma_distinct_extension_count(dir: Seq<char>, exts: Seq<Seq<char>>)
    requires
        base_name(dir) is Some,
        paths_differ(dir, base_name(dir)->Some_0, exts),
    ensures
        add_targets(seq![], dir, base_name(dir)->Some_0, exts).len() == exts.to_set().len(),
{
    lemma_plan_counts_distinct(dir, base_name(dir)->Some_0, exts);
}

/// Planning from nothing with no repeated extension gives exactly one file for
/// each extension, as long as different extensions lead to different paths.
pub proof fn lemma_unique_extension_count(dir: Seq<char>, exts: Seq<Seq<char>>)
    requires
        base_name(dir) is Some,
        exts.no_duplicates(),
        paths_differ(dir, base_name(dir)->Some_0, exts),
    ensures
        add_targets(seq![], dir, base_name(dir)->Some_0, exts).len() == exts.len(),
{
    lemma_plan_counts_distinct(dir, base_name(dir)->Some_0, exts);
    exts.unique_seq_to_set();
}

} // verus!
