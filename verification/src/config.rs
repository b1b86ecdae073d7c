//! The data model: `ManagedObject` (one declared unit of work), `Worker`
//! (a status message from a running task), the platform types `OS` and
//! `LinuxDistro`, and the `Store` that maps each object name to its
//! declaration.

use vstd::pervasive::VecAdditionalExecFns;
use vstd::prelude::*;

verus! {

/// A status message from one running task back to the completion loop.
/// `status` is the process exit code, absent while the task still runs;
/// `completed` is the terminal flag.
#[derive(Debug)]
pub struct Worker {
    pub name: String,
    pub status: Option<i32>,
    pub completed: bool,
}

impl Worker {
    /// A fresh, unnamed, unfinished worker record.
    pub fn new() -> (w: Worker)
        ensures
            w.name@ == Seq::<char>::empty(),
            w.status == Some(1i32),
            !w.completed,
    {
        Worker { name: String::new(), status: Some(1i32), completed: false }
    }
}

impl Clone for Worker {
    fn clone(&self) -> (r: Self)
        ensures
            r.name@ == self.name@,
            r.status == self.status,
            r.completed == self.completed,
    {
        Worker { name: self.name.clone(), status: self.status, completed: self.completed }
    }
}

/// Two worker messages are the same worker exactly when their names match:
/// the newest message for a name supersedes the earlier ones.
impl PartialEq for Worker {
    fn eq(&self, other: &Self) -> (r: bool) {
        self.name == other.name
    }
}

impl vstd::std_specs::cmp::PartialEqSpecImpl for Worker {
    open spec fn obeys_eq_spec() -> bool {
        true
    }

    open spec fn eq_spec(&self, other: &Worker) -> bool {
        self.name@ == other.name@
    }
}

impl Eq for Worker {}

/// The platform an object is constrained to, if any.
#[derive(Debug, Clone, Copy, PartialEq, Eq, Structural, Hash)]
pub enum OS {
    Windows,
    Unknown,
    Linux(LinuxDistro),
}

impl Default for OS {
    fn default() -> (r: Self)
        ensures
            r == OS::Unknown,
    {
        OS::Unknown
    }
}

/// The Linux distribution sub-tag of an `OS::Linux` constraint.
#[derive(Debug, Clone, Copy, PartialEq, Eq, Structural, Hash)]
pub enum LinuxDistro {
    Fedora,
    Debian,
    Ubuntu,
    Arch,
    Generic,
}

impl Default for LinuxDistro {
    fn default() -> (r: Self)
        ensures
            r == LinuxDistro::Generic,
    {
        LinuxDistro::Generic
    }
}

/// One declared unit of work: either a file to place (`method` is `symlink`
/// or `copy`) or a named task (a non-empty shell `solution`) with a list of
/// dependency names and an optional platform constraint.
#[derive(Debug)]
pub struct ManagedObject {
    pub name: String,
    pub source: String,
    pub file: String,
    pub destination: String,
    pub method: String,
    pub task: String,
    pub solution: String,
    pub dependencies: Vec<String>,
    pub satisfied: bool,
    pub os: Option<OS>,
    pub force: bool,
    pub post: String,
}

/// Field-for-field sameness of two objects, stated over the views of the
/// owned fields.
pub open spec fn same_object(a: ManagedObject, b: ManagedObject) -> bool {
    &&& a.name@ == b.name@
    &&& a.source@ == b.source@
    &&& a.file@ == b.file@
    &&& a.destination@ == b.destination@
    &&& a.method@ == b.method@
    &&& a.task@ == b.task@
    &&& a.solution@ == b.solution@
    &&& a.dependencies@ == b.dependencies@
    &&& a.satisfied == b.satisfied
    &&& a.os == b.os
    &&& a.force == b.force
    &&& a.post@ == b.post@
}

/// The same object after the resolver has marked it as scheduled.
pub open spec fn with_satisfied(mo: ManagedObject) -> ManagedObject {
    ManagedObject { satisfied: true, ..mo }
}

impl ManagedObject {
    /// Quite simply, if we're a task, we'll have a `solution`.
    pub fn is_task(&self) -> (r: bool)
        ensures
            r == (self.solution@.len() != 0),
    {
        self.solution.as_str().unicode_len() != 0
    }

    /// Mark this object as already included in some batch as a dependency.
    pub fn set_satisfied(&mut self)
        ensures
            *final(self) == with_satisfied(*old(self)),
    {
        self.satisfied = true;
    }
}

impl Clone for ManagedObject {
    fn clone(&self) -> (r: Self)
        ensures
            same_object(r, *self),
    {
        let r = ManagedObject {
            name: self.name.clone(),
            source: self.source.clone(),
            file: self.file.clone(),
            destination: self.destination.clone(),
            method: self.method.clone(),
            task: self.task.clone(),
            solution: self.solution.clone(),
            dependencies: self.dependencies.clone(),
            satisfied: self.satisfied,
            os: self.os,
            force: self.force,
            post: self.post.clone(),
        };
        proof {
            assert(r.dependencies@ =~= self.dependencies@);
        }
        r
    }
}

/// Equality compares the fields that identify what the object does; the
/// bookkeeping fields (`satisfied`, `force`, platform, dependencies) are not
/// part of an object's identity.
impl PartialEq for ManagedObject {
    fn eq(&self, other: &Self) -> (r: bool) {
        self.name == other.name && self.source == other.source
            && self.destination == other.destination && self.task == other.task
            && self.solution == other.solution
    }
}

impl vstd::std_specs::cmp::PartialEqSpecImpl for ManagedObject {
    open spec fn obeys_eq_spec() -> bool {
        true
    }

    open spec fn eq_spec(&self, other: &ManagedObject) -> bool {
        self.name@ == other.name@ && self.source@ == other.source@
            && self.destination@ == other.destination@ && self.task@ == other.task@
            && self.solution@ == other.solution@
    }
}

impl Default for ManagedObject {
    fn default() -> (r: Self)
        ensures
            r.name@ == Seq::<char>::empty(),
            r.source@ == Seq::<char>::empty(),
            r.file@ == Seq::<char>::empty(),
            r.destination@ == Seq::<char>::empty(),
            r.method@ == Seq::<char>::empty(),
            r.task@ == Seq::<char>::empty(),
            r.solution@ == Seq::<char>::empty(),
            r.dependencies@ == Seq::<String>::empty(),
            !r.satisfied,
            r.os is None,
            !r.force,
            r.post@ == Seq::<char>::empty(),
    {
        ManagedObject {
            name: String::new(),
            source: String::new(),
            file: String::new(),
            destination: String::new(),
            method: String::new(),
            task: String::new(),
            solution: String::new(),
            dependencies: Vec::new(),
            satisfied: false,
            os: None,
            force: false,
            post: String::new(),
        }
    }
}

/// The names of `s` are pairwise distinct.
pub open spec fn distinct_names(s: Seq<ManagedObject>) -> bool {
    forall|i: int, j: int| 0 <= i < j < s.len() ==> s[i].name@ != s[j].name@
}

/// Some object of `s` is named `n`.
pub open spec fn has_name(s: Seq<ManagedObject>, n: Seq<char>) -> bool {
    exists|i: int| 0 <= i < s.len() && s[i].name@ == n
}

/// The index of the object of `s` named `n` (unique when names are distinct).
pub open spec fn name_index(s: Seq<ManagedObject>, n: Seq<char>) -> int {
    choose|i: int| 0 <= i < s.len() && s[i].name@ == n
}

/// Find the first object with the given name.
pub fn find_named(objects: &Vec<ManagedObject>, name: &String) -> (r: Option<usize>)
    ensures
        match r {
            Some(i) => i < objects@.len() && objects@[i as int].name@ == name@ && (forall|j: int|
                0 <= j < i ==> objects@[j].name@ != name@),
            None => forall|j: int| 0 <= j < objects@.len() ==> objects@[j].name@ != name@,
        },
{
    let mut i: usize = 0;
    while i < objects.len()
        invariant
            i <= objects@.len(),
            forall|j: int| 0 <= j < i ==> objects@[j].name@ != name@,
        decreases objects@.len() - i,
    {
        if objects[i].name == *name {
            return Some(i);
        }
        i += 1;
    }
    None
}

/// Within the first `hi` declarations of `orig`, the one at `k` is the last
/// carrying its name.
pub open spec fn last_declaration_until(orig: Seq<ManagedObject>, k: int, hi: int) -> bool {
    &&& 0 <= k < hi <= orig.len()
    &&& forall|k2: int| k < k2 < hi ==> (#[trigger] orig[k2].name@) != orig[k].name@
}

/// `mo` is one of the first `hi` declarations of `orig`, and the last of
/// its name among them.
pub open spec fn stored_from(orig: Seq<ManagedObject>, mo: ManagedObject, hi: int) -> bool {
    exists|k: int| last_declaration_until(orig, k, hi) && mo == orig[k]
}

/// The in-memory object store: a mapping from object name to declaration.
/// Name uniqueness is enforced by construction; on a collision the last
/// write wins.
pub struct Store {
    objects: Vec<ManagedObject>,
}

impl View for Store {
    type V = Seq<ManagedObject>;

    closed spec fn view(&self) -> Seq<ManagedObject> {
        self.objects@
    }
}

impl Store {
    /// Names are unique within the store.
    pub open spec fn wf(&self) -> bool {
        distinct_names(self@)
    }

    /// Build the store from a list of declarations. Each declared name ends
    /// up in the store exactly once; when a name is declared twice, the
    /// last declaration wins.
    pub fn from_objects(objects: Vec<ManagedObject>) -> (s: Store)
        ensures
            s.wf(),
            forall|k: int| 0 <= k < objects@.len() ==> has_name(s@, (#[trigger] objects@[k]).name@),
            forall|j: int| 0 <= j < s@.len() ==> stored_from(
                objects@,
                #[trigger] s@[j],
                objects@.len() as int,
            ),
    {
        let ghost orig = objects@;
        let mut rest = objects;
        let mut out: Vec<ManagedObject> = Vec::new();
        while rest.len() > 0
            invariant
                rest@.len() <= orig.len(),
                rest@ == orig.subrange(orig.len() - rest@.len(), orig.len() as int),
                distinct_names(out@),
                forall|k: int| 0 <= k < orig.len() - rest@.len() ==> has_name(
                    out@,
                    (#[trigger] orig[k]).name@,
                ),
                forall|j: int| 0 <= j < out@.len() ==> stored_from(
                    orig,
                    #[trigger] out@[j],
                    orig.len() - rest@.len(),
                ),
            decreases rest@.len(),
        {
            let ghost prev = rest@;
            let ghost i = orig.len() - prev.len();
            proof {
                assert(prev.len() == orig.len() - i);
                assert(prev[0] == orig.subrange(i, orig.len() as int)[0]);
            }
            let mo = rest.remove(0);
            proof {
                assert(mo == prev[0]);
                assert(mo == orig[i]);
                assert(rest@ =~= orig.subrange(i + 1, orig.len() as int));
            }
            let pos = find_named(&out, &mo.name);
            let ghost old_out = out@;
            match pos {
                Some(j) => {
                    out.set(j, mo);
                    proof {
                        assert forall|k: int| 0 <= k < i + 1 implies has_name(
                            out@,
                            (#[trigger] orig[k]).name@,
                        ) by {
                            if k == i {
                                assert(out@[j as int].name@ == orig[i].name@);
                            } else {
                                let w = choose|w: int|
                                    0 <= w < old_out.len() && old_out[w].name@ == orig[k].name@;
                                if w == j {
                                    assert(out@[j as int].name@ == old_out[j as int].name@);
                                } else {
                                    assert(out@[w].name@ == orig[k].name@);
                                }
                            }
                        }
                        assert forall|j2: int| 0 <= j2 < out@.len() implies stored_from(
                            orig,
                            #[trigger] out@[j2],
                            i + 1,
                        ) by {
                            if j2 == j {
                                assert(last_declaration_until(orig, i, i + 1) && out@[j2]
                                    == orig[i]);
                            } else {
                                assert(stored_from(orig, old_out[j2], i));
                                let k = choose|k: int|
                                    last_declaration_until(orig, k, i) && old_out[j2] == orig[k];
                                assert(orig[i].name@ != orig[k].name@);
                                assert(last_declaration_until(orig, k, i + 1) && out@[j2]
                                    == orig[k]);
                            }
                        }
                    }
                }
                None => {
                    out.push(mo);
                    proof {
                        assert forall|k: int| 0 <= k < i + 1 implies has_name(
                            out@,
                            (#[trigger] orig[k]).name@,
                        ) by {
                            if k == i {
                                assert(out@[out@.len() - 1].name@ == orig[i].name@);
                            } else {
                                let w = choose|w: int|
                                    0 <= w < old_out.len() && old_out[w].name@ == orig[k].name@;
                                assert(out@[w].name@ == orig[k].name@);
                            }
                        }
                        assert forall|j2: int| 0 <= j2 < out@.len() implies stored_from(
                            orig,
                            #[trigger] out@[j2],
                            i + 1,
                        ) by {
                            if j2 == out@.len() - 1 {
                                assert(last_declaration_until(orig, i, i + 1) && out@[j2]
                                    == orig[i]);
                            } else {
                                assert(stored_from(orig, old_out[j2], i));
                                let k = choose|k: int|
                                    last_declaration_until(orig, k, i) && old_out[j2] == orig[k];
                                assert(last_declaration_until(orig, k, i + 1) && out@[j2]
                                    == orig[k]);
                            }
                        }
                    }
                }
            }
        }
        proof {
            assert(orig.len() - rest@.len() == orig.len());
        }
        Store { objects: out }
    }

    /// Borrow the declarations, in store order.
    pub fn objects(&self) -> (r: &Vec<ManagedObject>)
        ensures
            r@ == self@,
    {
        &self.objects
    }

    /// Give up the store and keep the declarations, in store order.
    pub fn into_objects(self) -> (r: Vec<ManagedObject>)
        ensures
            r@ == self@,
    {
        self.objects
    }
}

/// The ASCII-lowercased form of a string: letters `A` to `Z` mapped down,
/// every other character unchanged. The result depends on the characters
/// alone.
pub uninterp spec fn ascii_lower_of(s: Seq<char>) -> Seq<char>;

/// `n` occurs somewhere inside `h`.
pub open spec fn contains_seq(h: Seq<char>, n: Seq<char>) -> bool {
    exists|k: int| 0 <= k && k + n.len() <= h.len() && (#[trigger] h.subrange(k, k + n.len())) == n
}

/// Relies on str::to_ascii_lowercase: ASCII upper-case letters are mapped to
/// lower case, all other characters are kept, so the length is unchanged.
#[verifier::external_body]
fn to_ascii_lower(s: &String) -> (r: String)
    ensures
        r@ == ascii_lower_of(s@),
        r@.len() == s@.len(),
{
    s.to_ascii_lowercase()
}

/// Relies on str::contains: true exactly when the pattern matches a
/// sub-slice of the string.
#[verifier::external_body]
fn str_contains(hay: &String, needle: &str) -> (r: bool)
    ensures
        r == contains_seq(hay@, needle@),
{
    hay.as_str().contains(needle)
}

/// Relies on sys_info::os_type: the name of the running operating system,
/// e.g. `Linux` or `Windows`; what comes back depends on the host.
#[verifier::external_body]
fn host_os_type() -> (r: Option<String>) {
    sys_info::os_type().ok()
}

/// Relies on sys_info::linux_os_release: the `NAME` field of the host's
/// os-release file; what comes back depends on the host.
#[verifier::external_body]
fn host_linux_release_name() -> (r: Option<String>) {
    match sys_info::linux_os_release() {
        Ok(release) => release.name,
        Err(_) => None,
    }
}

/// Which distribution a Linux os-release name denotes, judged on its
/// lowercased form.
pub open spec fn spec_classify_release(n: Seq<char>) -> OS {
    let ln = ascii_lower_of(n);
    if contains_seq(ln, "fedora"@) {
        OS::Linux(LinuxDistro::Fedora)
    } else if contains_seq(ln, "debian"@) {
        OS::Linux(LinuxDistro::Debian)
    } else if contains_seq(ln, "ubuntu"@) {
        OS::Linux(LinuxDistro::Ubuntu)
    } else {
        OS::Unknown
    }
}

/// Classify a Linux distribution from its os-release name.
pub fn classify_release(name: &String) -> (r: OS)
    ensures
        r == spec_classify_release(name@),
{
    let lower = to_ascii_lower(name);
    if str_contains(&lower, "fedora") {
        OS::Linux(LinuxDistro::Fedora)
    } else if str_contains(&lower, "debian") {
        OS::Linux(LinuxDistro::Debian)
    } else if str_contains(&lower, "ubuntu") {
        OS::Linux(LinuxDistro::Ubuntu)
    } else {
        OS::Unknown
    }
}

/// Windows or Linux? If Linux, determine the distribution, because package
/// managers and such. The host decides what comes back; whatever that is,
/// the result is Windows, Unknown, or a recognized Linux distribution.
pub fn determine_os() -> (r: OS)
    ensures
        r == OS::Windows || r == OS::Unknown || r == OS::Linux(LinuxDistro::Fedora) || r
            == OS::Linux(LinuxDistro::Debian) || r == OS::Linux(LinuxDistro::Ubuntu),
{
    match host_os_type() {
        None => OS::Unknown,
        Some(t) => {
            let lower = to_ascii_lower(&t);
            if lower == String::from_str("linux") {
                match host_linux_release_name() {
                    None => OS::Unknown,
                    Some(name) => classify_release(&name),
                }
            } else if lower == String::from_str("windows") {
                OS::Windows
            } else {
                OS::Unknown
            }
        }
    }
}

/// Look an object up by name; a copy of the stored declaration comes back.
pub fn get_mo(store: &Store, name: &String) -> (r: Option<ManagedObject>)
    ensures
        r is Some <==> has_name(store@, name@),
        r matches Some(mo) ==> exists|i: int|
            0 <= i < store@.len() && store@[i].name@ == name@ && same_object(mo, store@[i]),
{
    match find_named(store.objects(), name) {
        Some(i) => {
            let mo = store.objects()[i].clone();
            Some(mo)
        }
        None => None,
    }
}

} // verus!
