//! Rename planning: resolving filenames, classifying inputs and detecting
//! target collisions.
//!
//! Paths are modelled as plain strings.  The final path component is the
//! text after the last `/` once trailing slashes are dropped; a component
//! that is empty, `.` or `..` is no usable filename.  Filesystem probes are
//! performed by the surrounding application and handed in as booleans.

use vstd::prelude::*;

use crate::convert::convert_filename;
use crate::convert::convert_filename_chars;
use crate::convert::last_index_of;
use crate::convert::string_from_chars;
use crate::convert::subvec;
use crate::convert::to_chars;

verus! {

/// Terminal classification of one planned rename, decided at plan-build time.
#[derive(Debug, PartialEq, Eq, Structural, Clone, Copy)]
pub enum EntryStatus {
    /// The target did not exist when the plan was built.
    Ready,
    /// The target already existed when the plan was built.
    TargetExists,
}

/// `s` without its trailing run of `/` characters.
pub open spec fn strip_trailing_slashes(s: Seq<char>) -> Seq<char>
    decreases s.len(),
{
    if s.len() > 0 && s.last() == '/' {
        strip_trailing_slashes(s.drop_last())
    } else {
        s
    }
}

proof fn lemma_strip_trailing_eq(s: Seq<char>, t: int)
    requires
        0 <= t <= s.len(),
        forall|k: int| t <= k < s.len() ==> s[k] == '/',
        t == 0 || s[t - 1] != '/',
    ensures
        strip_trailing_slashes(s) == s.take(t),
    decreases s.len(),
{
    if t == s.len() {
        assert(s.take(t) =~= s);
    } else {
        assert(s.last() == '/');
        let u = s.drop_last();
        assert forall|k: int| t <= k < u.len() implies u[k] == '/' by {
            assert(u[k] == s[k]);
        }
        if t > 0 {
            assert(u[t - 1] == s[t - 1]);
        }
        lemma_strip_trailing_eq(u, t);
        assert(u.take(t) =~= s.take(t));
    }
}

/// The filename component of a path: the text after the last `/` once
/// trailing slashes are dropped.  `None` when nothing remains, or when the
/// component is the relative marker `.` or `..`.
pub open spec fn file_name_view(path: Seq<char>) -> Option<Seq<char>> {
    let t = strip_trailing_slashes(path);
    if t.len() == 0 {
        None
    } else {
        let f = t.skip(last_index_of(t, '/') + 1);
        if f.len() == 0 || f == seq!['.'] || f == seq!['.', '.'] {
            None
        } else {
            Some(f)
        }
    }
}

/// `path` with its filename component replaced by `name`: everything up to
/// and including the last `/` of the slash-stripped path, then `name`.
pub open spec fn with_file_name_view(path: Seq<char>, name: Seq<char>) -> Seq<char> {
    let t = strip_trailing_slashes(path);
    t.take(last_index_of(t, '/') + 1) + name
}

/// Locate the slash-stripped length `t` of `v` and the start `j` of its
/// final path component.
fn split_path(v: &Vec<char>) -> (r: (usize, usize))
    ensures
        ({
            let (j, t) = r;
            &&& j <= t <= v@.len()
            &&& strip_trailing_slashes(v@) == v@.take(t as int)
            &&& last_index_of(v@.take(t as int), '/') == j - 1
            &&& t > 0 ==> v@[t - 1] != '/'
        }),
{
    let mut t: usize = v.len();
    while t > 0 && v[t - 1] == '/'
        invariant
            t <= v@.len(),
            forall|k: int| t <= k < v@.len() ==> v@[k] == '/',
        decreases t,
    {
        t = t - 1;
    }
    proof {
        lemma_strip_trailing_eq(v@, t as int);
    }
    let ghost st = v@.take(t as int);
    let mut j: usize = t;
    while j > 0 && v[j - 1] != '/'
        invariant
            j <= t <= v@.len(),
            forall|k: int| j <= k < t ==> v@[k] != '/',
        decreases j,
    {
        j = j - 1;
    }
    proof {
        if j == 0 {
            assert forall|k: int| 0 <= k < st.len() implies st[k] != '/' by {
                assert(st[k] == v@[k]);
            }
            crate::convert::lemma_last_index_of_none(st, '/');
        } else {
            assert(st[j - 1] == v@[j - 1]);
            assert forall|k: int| j - 1 < k < st.len() implies st[k] != '/' by {
                assert(st[k] == v@[k]);
            }
            crate::convert::lemma_last_index_of_at(st, '/', j - 1);
        }
    }
    (j, t)
}

/// Extract the filename component of a path, or report that none exists.
pub fn file_name_of(path: &str) -> (r: Option<String>)
    ensures
        match r {
            Some(f) => file_name_view(path@) == Some(f@),
            None => file_name_view(path@) is None,
        },
{
    let v = to_chars(path);
    let (j, t) = split_path(&v);
    let ghost st = v@.take(t as int);
    if t == 0 {
        proof {
            assert(st.len() == 0);
        }
        return None;
    }
    proof {
        assert(v@[t - 1] != '/');
        crate::convert::lemma_last_index_of_props(st, '/');
        assert(st[st.len() - 1] == v@[t - 1]);
        assert(j < t);
        assert(st.skip(j as int) =~= v@.subrange(j as int, t as int));
    }
    let f = subvec(&v, j, t);
    let is_dot = f.len() == 1 && f[0] == '.';
    let is_dotdot = f.len() == 2 && f[0] == '.' && f[1] == '.';
    if is_dot || is_dotdot {
        proof {
            if is_dot {
                assert(f@ =~= seq!['.']);
            } else {
                assert(f@ =~= seq!['.', '.']);
            }
        }
        None
    } else {
        proof {
            assert(seq!['.'].len() == 1);
            assert(seq!['.'][0] == '.');
            assert(seq!['.', '.'].len() == 2);
            assert(seq!['.', '.'][0] == '.');
            assert(seq!['.', '.'][1] == '.');
            assert(f@.len() > 0);
            assert(f@ != seq!['.']);
            assert(f@ != seq!['.', '.']);
        }
        Some(string_from_chars(&f))
    }
}

/// Replace the filename component of `path` with `name`.
pub fn replace_file_name(path: &str, name: &str) -> (r: String)
    ensures
        r@ == with_file_name_view(path@, name@),
{
    let v = to_chars(path);
    let (j, t) = split_path(&v);
    let ghost st = v@.take(t as int);
    let mut out = subvec(&v, 0, j);
    let mut tail = to_chars(name);
    out.append(&mut tail);
    proof {
        assert(st.take(j as int) =~= v@.subrange(0, j as int));
    }
    string_from_chars(&out)
}

/// How one input path is treated by the plan builder.
#[derive(Debug, PartialEq, Eq, Structural, Clone, Copy)]
pub enum Disposition {
    /// The source path does not exist: skipped.
    NotFound,
    /// No filename component could be extracted: skipped.
    NoFilename,
    /// The conversion produced an empty name: skipped.
    EmptyName,
    /// The converted name equals the original: skipped.
    Unchanged,
    /// The name changes: a rename entry is planned.
    Rename,
}

/// One input path together with the filesystem probes the application took
/// for it: whether the source exists, and whether the proposed target
/// (`proposed_target` on the same path) exists.
pub struct PlanInput {
    pub path: String,
    pub source_exists: bool,
    pub target_exists: bool,
}

/// The disposition of one input path, given its source-existence probe.
pub open spec fn classify_view(path: Seq<char>, source_exists: bool, sep: char) -> Disposition {
    if !source_exists {
        Disposition::NotFound
    } else {
        match file_name_view(path) {
            None => Disposition::NoFilename,
            Some(f) => {
                let conv = convert_filename_chars(f, sep);
                if conv.len() == 0 {
                    Disposition::EmptyName
                } else if conv == f {
                    Disposition::Unchanged
                } else {
                    Disposition::Rename
                }
            },
        }
    }
}

/// The target path planned for an input: the path with its filename
/// replaced by the converted filename.
pub open spec fn target_view(path: Seq<char>, sep: char) -> Seq<char> {
    with_file_name_view(path, convert_filename_chars(file_name_view(path)->Some_0, sep))
}

/// Compute the rename target an existing source path would get, or `None`
/// when the path would be skipped (no filename, empty conversion, or a name
/// the conversion leaves unchanged).
pub fn proposed_target(path: &str, separator: char) -> (t: Option<String>)
    ensures
        t is Some <==> classify_view(path@, true, separator) is Rename,
        t is Some ==> t->Some_0@ == target_view(path@, separator),
{
    match file_name_of(path) {
        None => None,
        Some(f) => {
            let conv = convert_filename(f.as_str(), separator);
            if conv.as_str().is_empty() {
                None
            } else if conv == f {
                None
            } else {
                Some(replace_file_name(path, conv.as_str()))
            }
        },
    }
}

/// Classify one input path, given its source-existence probe: the decision
/// the plan builder takes for it.
pub fn classify_path(path: &str, source_exists: bool, separator: char) -> (d: Disposition)
    ensures
        d == classify_view(path@, source_exists, separator),
{
    if !source_exists {
        return Disposition::NotFound;
    }
    match file_name_of(path) {
        None => Disposition::NoFilename,
        Some(f) => {
            let conv = convert_filename(f.as_str(), separator);
            if conv.as_str().is_empty() {
                Disposition::EmptyName
            } else if conv == f {
                Disposition::Unchanged
            } else {
                Disposition::Rename
            }
        },
    }
}

impl Disposition {
    /// The reason string a skipped input is reported with.
    pub fn message(&self) -> (r: &'static str)
        ensures
            *self is NotFound ==> r@ == "not found"@,
            *self is NoFilename ==> r@ == "cannot extract filename"@,
            *self is EmptyName ==> r@ == "conversion produced empty name"@,
            *self is Unchanged ==> r@ == "unchanged"@,
            *self is Rename ==> r@ == "ready to rename"@,
    {
        match self {
            Disposition::NotFound => "not found",
            Disposition::NoFilename => "cannot extract filename",
            Disposition::EmptyName => "conversion produced empty name",
            Disposition::Unchanged => "unchanged",
            Disposition::Rename => "ready to rename",
        }
    }
}

/// One planned rename: source and target are full paths differing only in
/// the final path component; the status records whether the target existed
/// when the plan was built.
#[derive(Debug)]
pub struct RenameEntry {
    pub source: String,
    pub target: String,
    pub status: EntryStatus,
}

impl View for RenameEntry {
    type V = (Seq<char>, Seq<char>, EntryStatus);

    open spec fn view(&self) -> (Seq<char>, Seq<char>, EntryStatus) {
        (self.source@, self.target@, self.status)
    }
}

/// The views of a sequence of entries.
pub open spec fn entry_views(entries: Seq<RenameEntry>) -> Seq<(Seq<char>, Seq<char>, EntryStatus)> {
    entries.map_values(|e: RenameEntry| e@)
}

/// The entry the plan builder records for one input classified as a rename.
pub open spec fn entry_view_for(inp: PlanInput, sep: char) -> (Seq<char>, Seq<char>, EntryStatus) {
    (
        inp.path@,
        target_view(inp.path@, sep),
        if inp.target_exists {
            EntryStatus::TargetExists
        } else {
            EntryStatus::Ready
        },
    )
}

/// The entries a batch of probed inputs produces, in input order: one entry
/// for each input classified as a rename, none for a skipped input.
pub open spec fn entries_view(inputs: Seq<PlanInput>, sep: char) -> Seq<
    (Seq<char>, Seq<char>, EntryStatus),
>
    decreases inputs.len(),
{
    if inputs.len() == 0 {
        Seq::empty()
    } else {
        let rest = entries_view(inputs.drop_last(), sep);
        if classify_view(inputs.last().path@, inputs.last().source_exists, sep) is Rename {
            rest.push(entry_view_for(inputs.last(), sep))
        } else {
            rest
        }
    }
}

/// How many of the inputs are skipped (every disposition but a rename).
pub open spec fn skipped_view(inputs: Seq<PlanInput>, sep: char) -> nat
    decreases inputs.len(),
{
    if inputs.len() == 0 {
        0
    } else {
        skipped_view(inputs.drop_last(), sep) + if classify_view(
            inputs.last().path@,
            inputs.last().source_exists,
            sep,
        ) is Rename {
            0nat
        } else {
            1nat
        }
    }
}

/// The computed batch of renames plus the count of skipped inputs.
pub struct RenamePlan {
    pub entries: Vec<RenameEntry>,
    pub skipped: usize,
}

impl View for RenamePlan {
    type V = (Seq<(Seq<char>, Seq<char>, EntryStatus)>, nat);

    open spec fn view(&self) -> (Seq<(Seq<char>, Seq<char>, EntryStatus)>, nat) {
        (entry_views(self.entries@), self.skipped as nat)
    }
}

impl RenamePlan {
    /// Build the plan for a batch of probed inputs, in input order: each
    /// input classified as a rename contributes one entry with the converted
    /// target and its probe-derived status; every other input only counts as
    /// skipped.  This performs no filesystem access at all.
    pub fn build(inputs: &Vec<PlanInput>, separator: char) -> (plan: RenamePlan)
        ensures
            plan@.0 == entries_view(inputs@, separator),
            plan@.1 == skipped_view(inputs@, separator),
    {
        let mut entries: Vec<RenameEntry> = Vec::new();
        let mut skipped: usize = 0;
        let mut i: usize = 0;
        proof {
            assert(inputs@.take(0) =~= Seq::<PlanInput>::empty());
            assert(entry_views(entries@) =~= entries_view(inputs@.take(0), separator));
        }
        while i < inputs.len()
            invariant
                i <= inputs@.len(),
                skipped <= i,
                entry_views(entries@) == entries_view(inputs@.take(i as int), separator),
                skipped as nat == skipped_view(inputs@.take(i as int), separator),
            decreases inputs@.len() - i,
        {
            let inp = &inputs[i];
            let ghost grown = inputs@.take((i + 1) as int);
            proof {
                assert(grown.drop_last() =~= inputs@.take(i as int));
                assert(grown.last() == inputs@[i as int]);
            }
            if !inp.source_exists {
                skipped = skipped + 1;
            } else {
                match file_name_of(inp.path.as_str()) {
                    None => {
                        skipped = skipped + 1;
                    },
                    Some(f) => {
                        let conv = convert_filename(f.as_str(), separator);
                        if conv.as_str().is_empty() {
                            skipped = skipped + 1;
                        } else if conv == f {
                            skipped = skipped + 1;
                        } else {
                            let target = replace_file_name(inp.path.as_str(), conv.as_str());
                            let status = if inp.target_exists {
                                EntryStatus::TargetExists
                            } else {
                                EntryStatus::Ready
                            };
                            let ghost prev = entries@;
                            entries.push(
                                RenameEntry { source: inp.path.clone(), target, status },
                            );
                            proof {
                                assert(entry_views(entries@) =~= entry_views(prev).push(
                                    entry_view_for(inputs@[i as int], separator),
                                ));
                            }
                        }
                    },
                }
            }
            i = i + 1;
        }
        proof {
            assert(inputs@.take(inputs@.len() as int) =~= inputs@);
        }
        RenamePlan { entries, skipped }
    }

    /// True when at least two planned entries claim the same target path.
    pub fn check_collisions(&self) -> (r: bool)
        ensures
            r == has_collision_view(self@.0),
    {
        let ghost vs = entry_views(self.entries@);
        let n = self.entries.len();
        let mut i: usize = 0;
        while i < n
            invariant
                n == self.entries@.len(),
                i <= n,
                vs == entry_views(self.entries@),
                forall|a: int, b: int| 0 <= a < i && a < b < n ==> vs[a].1 != vs[b].1,
            decreases n - i,
        {
            let mut j: usize = i + 1;
            while j < n
                invariant
                    n == self.entries@.len(),
                    i < n,
                    i < j <= n,
                    vs == entry_views(self.entries@),
                    forall|b: int| i < b < n && b < j ==> vs[i as int].1 != vs[b].1,
                decreases n - j,
            {
                if self.entries[i].target == self.entries[j].target {
                    proof {
                        assert(has_collision_view(vs)) by {
                            assert(0 <= i < j < vs.len() && vs[i as int].1 == vs[j as int].1);
                        }
                    }
                    return true;
                }
                j = j + 1;
            }
            i = i + 1;
        }
        false
    }

    /// True when some other planned entry claims the same target as entry `i`.
    pub fn target_collides(&self, i: usize) -> (r: bool)
        requires
            i < self@.0.len(),
        ensures
            r == exists|j: int|
                0 <= j < self@.0.len() && j != i && self@.0[j].1 == self@.0[i as int].1,
    {
        let ghost vs = entry_views(self.entries@);
        let n = self.entries.len();
        let mut j: usize = 0;
        let mut found = false;
        while j < n
            invariant
                n == self.entries@.len(),
                i < n,
                j <= n,
                vs == entry_views(self.entries@),
                found == exists|b: int| 0 <= b < j && b != i && vs[b].1 == vs[i as int].1,
            decreases n - j,
        {
            let ghost was_found = found;
            if j != i {
                if self.entries[j].target == self.entries[i].target {
                    found = true;
                }
            }
            proof {
                if found {
                    if was_found {
                        let b0 = choose|b: int|
                            0 <= b < j && b != i && vs[b].1 == vs[i as int].1;
                        assert(0 <= b0 < j + 1 && b0 != i && vs[b0].1 == vs[i as int].1);
                    } else {
                        assert(j != i && vs[j as int].1 == vs[i as int].1);
                    }
                    assert(exists|b: int| 0 <= b < j + 1 && b != i && vs[b].1 == vs[i as int].1);
                } else {
                    assert forall|b: int|
                        0 <= b < j + 1 && b != i implies vs[b].1 != vs[i as int].1 by {
                        if b < j {
                            assert(!(0 <= b < j && b != i && vs[b].1 == vs[i as int].1));
                        }
                    }
                }
            }
            j = j + 1;
        }
        found
    }

    /// True when no earlier planned entry claims the same target as entry
    /// `i`; the application reports each colliding group once, at its first
    /// entry.
    pub fn is_first_with_target(&self, i: usize) -> (r: bool)
        requires
            i < self@.0.len(),
        ensures
            r == forall|j: int| 0 <= j < i ==> self@.0[j].1 != self@.0[i as int].1,
    {
        let ghost vs = entry_views(self.entries@);
        let mut j: usize = 0;
        while j < i
            invariant
                i < self.entries@.len(),
                j <= i,
                vs == entry_views(self.entries@),
                forall|b: int| 0 <= b < j ==> vs[b].1 != vs[i as int].1,
            decreases i - j,
        {
            if self.entries[j].target == self.entries[i].target {
                proof {
                    assert(!(forall|b: int| 0 <= b < i ==> self@.0[b].1 != self@.0[i as int].1))
                        by {
                        assert(0 <= j < i && self@.0[j as int].1 == self@.0[i as int].1);
                    }
                }
                return false;
            }
            j = j + 1;
        }
        true
    }

    /// The sources of every planned entry whose target is `target`, in plan
    /// order: the colliding group the application reports.
    pub fn sources_for_target(&self, target: &String) -> (v: Vec<String>)
        ensures
            string_views(v@) == sources_for_view(self@.0, target@),
    {
        let ghost vs = entry_views(self.entries@);
        let mut out: Vec<String> = Vec::new();
        let mut i: usize = 0;
        proof {
            assert(vs.take(0) =~= Seq::<(Seq<char>, Seq<char>, EntryStatus)>::empty());
            assert(string_views(out@) =~= sources_for_view(vs.take(0), target@));
        }
        while i < self.entries.len()
            invariant
                i <= self.entries@.len(),
                vs == entry_views(self.entries@),
                string_views(out@) == sources_for_view(vs.take(i as int), target@),
            decreases self.entries@.len() - i,
        {
            let ghost prev = out@;
            proof {
                assert(vs.take((i + 1) as int).drop_last() =~= vs.take(i as int));
                assert(vs.take((i + 1) as int).last() == vs[i as int]);
            }
            if self.entries[i].target == *target {
                out.push(self.entries[i].source.clone());
                proof {
                    assert(string_views(out@) =~= string_views(prev).push(
                        self.entries@[i as int].source@,
                    ));
                }
            }
            i = i + 1;
        }
        proof {
            assert(vs.take(vs.len() as int) =~= vs);
        }
        out
    }

    /// The final path component of entry `i`'s target, for display.
    pub fn target_name(&self, i: usize) -> (r: Option<String>)
        requires
            i < self@.0.len(),
        ensures
            match r {
                Some(f) => file_name_view(self@.0[i as int].1) == Some(f@),
                None => file_name_view(self@.0[i as int].1) is None,
            },
    {
        file_name_of(self.entries[i].target.as_str())
    }
}

/// Two planned entries claim the same target.
pub open spec fn has_collision_view(entries: Seq<(Seq<char>, Seq<char>, EntryStatus)>) -> bool {
    exists|i: int, j: int| 0 <= i < j < entries.len() && entries[i].1 == entries[j].1
}

/// The views of a sequence of strings.
pub open spec fn string_views(v: Seq<String>) -> Seq<Seq<char>> {
    v.map_values(|s: String| s@)
}

/// The sources of the entries whose target is `t`, in plan order.
pub open spec fn sources_for_view(
    entries: Seq<(Seq<char>, Seq<char>, EntryStatus)>,
    t: Seq<char>,
) -> Seq<Seq<char>>
    decreases entries.len(),
{
    if entries.len() == 0 {
        Seq::empty()
    } else {
        let rest = sources_for_view(entries.drop_last(), t);
        if entries.last().1 == t {
            rest.push(entries.last().0)
        } else {
            rest
        }
    }
}

/// The entries planned for a prefix of the inputs form a prefix of the
/// entries planned for all of them.
proof fn lemma_entries_view_prefix(inputs: Seq<PlanInput>, sep: char, n: int)
    requires
        0 <= n <= inputs.len(),
    ensures
        entries_view(inputs.take(n), sep).len() <= entries_view(inputs, sep).len(),
        forall|m: int|
            0 <= m < entries_view(inputs.take(n), sep).len() ==> entries_view(inputs, sep)[m]
                == entries_view(inputs.take(n), sep)[m],
    decreases inputs.len() - n,
{
    if n == inputs.len() {
        assert(inputs.take(n) =~= inputs);
    } else {
        lemma_entries_view_prefix(inputs, sep, n + 1);
        let a = inputs.take(n);
        let b = inputs.take(n + 1);
        assert(b.drop_last() =~= a);
        assert(b.last() == inputs[n]);
    }
}

/// Every input is accounted for: it either becomes a planned entry or is
/// counted as skipped, never both and never neither.
pub proof fn lemma_plan_accounts_for_inputs(inputs: Seq<PlanInput>, sep: char)
    ensures
        entries_view(inputs, sep).len() + skipped_view(inputs, sep) == inputs.len(),
    decreases inputs.len(),
{
    if inputs.len() > 0 {
        lemma_plan_accounts_for_inputs(inputs.drop_last(), sep);
    }
}

/// A batch holding the same path twice, where that path is planned for a
/// rename, always collides: both occurrences compute the same target.
pub proof fn lemma_duplicate_inputs_collide(inputs: Seq<PlanInput>, sep: char, i: int, j: int)
    requires
        0 <= i < j < inputs.len(),
        inputs[i].path@ == inputs[j].path@,
        inputs[i].source_exists,
        inputs[j].source_exists,
        classify_view(inputs[i].path@, true, sep) is Rename,
    ensures
        has_collision_view(entries_view(inputs, sep)),
{
    let ei = entries_view(inputs.take(i), sep);
    let ti = inputs.take(i + 1);
    assert(ti.drop_last() =~= inputs.take(i));
    assert(ti.last() == inputs[i]);
    assert(entries_view(ti, sep) == ei.push(entry_view_for(inputs[i], sep)));
    let ej = entries_view(inputs.take(j), sep);
    let tj = inputs.take(j + 1);
    assert(tj.drop_last() =~= inputs.take(j));
    assert(tj.last() == inputs[j]);
    assert(classify_view(inputs[j].path@, inputs[j].source_exists, sep) is Rename);
    assert(entries_view(tj, sep) == ej.push(entry_view_for(inputs[j], sep)));
    let mi = ei.len() as int;
    let mj = ej.len() as int;
    assert(inputs.take(j).take(i + 1) =~= inputs.take(i + 1));
    lemma_entries_view_prefix(inputs.take(j), sep, i + 1);
    assert(mj >= mi + 1);
    assert(ej[mi] == entries_view(ti, sep)[mi]);
    lemma_entries_view_prefix(inputs, sep, j + 1);
    let full = entries_view(inputs, sep);
    assert(full.len() >= mj + 1);
    assert(full[mj] == entries_view(tj, sep)[mj]);
    assert(full[mi] == entries_view(tj, sep)[mi]);
    assert(entry_view_for(inputs[i], sep).1 == entry_view_for(inputs[j], sep).1);
    assert(full[mi].1 == full[mj].1);
    assert(has_collision_view(full)) by {
        assert(0 <= mi < mj < full.len() && full[mi].1 == full[mj].1);
    }
}

/// A name that already holds no Japanese-script character (and spaces at
/// most when the separator is a space) is classified as unchanged: running
/// the plan builder on an already-converted name plans no further rename.
pub proof fn lemma_converted_name_skipped(path: Seq<char>, sep: char)
    requires
        file_name_view(path) is Some,
        forall|k: int|
            0 <= k < file_name_view(path)->Some_0.len() ==> !crate::convert::is_japanese_char(
                file_name_view(path)->Some_0[k],
            ) && (file_name_view(path)->Some_0[k] == ' ' ==> sep == ' '),
    ensures
        classify_view(path, true, sep) == Disposition::Unchanged,
{
    let f = file_name_view(path)->Some_0;
    crate::convert::lemma_no_japanese_identity(f, sep);
    assert(f.len() > 0);
}

} // verus!
