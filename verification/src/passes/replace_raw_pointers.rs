//! Access-pattern analysis of raw pointers.

use vstd::prelude::*;
use crate::name_map::NameMap;

verus! {

/// A permission that a raw pointer `p` needs where it is defined and used.
#[derive(Copy, Clone, Debug, PartialEq, Eq, Structural)]
pub enum PointerAccess {
    /// The program writes to the pointee.
    Write,
    /// The pointer is the only way to reach the memory location.
    Unique,
    /// The pointer is eventually passed to `free`.
    Free,
    /// An offset is added to the pointer, as in an array element access.
    Offset,
}

/// The safe Rust pointer type that a set of permissions calls for.
#[derive(Copy, Clone, Debug, PartialEq, Eq, Structural)]
pub enum RustPointerType {
    /// `&T`
    ImmutableReference,
    /// `&mut T`
    MutableReference,
    /// `&Cell<T>`
    CellReference,
    /// `Box<T>`
    UniquePointer,
    /// `&[T]`
    ImmutableSlice,
    /// `&mut [T]`
    MutableSlice,
    /// `Box<[T]>`
    UniqueSlicePointer,
    /// No safe type fits the combination.
    Undefined,
}

/// The table from (write, unique, free, offset) to the safe pointer type.
pub open spec fn rust_type_for(write: bool, unique: bool, free: bool, offset: bool) -> RustPointerType {
    if !write && !unique && !free && !offset {
        RustPointerType::ImmutableReference
    } else if write && unique && !free && !offset {
        RustPointerType::MutableReference
    } else if write && !unique && !free && !offset {
        RustPointerType::CellReference
    } else if !write && unique && free && !offset {
        RustPointerType::UniquePointer
    } else if !write && !unique && !free && offset {
        RustPointerType::ImmutableSlice
    } else if write && unique && !free && offset {
        RustPointerType::MutableSlice
    } else if !write && unique && free && offset {
        RustPointerType::UniqueSlicePointer
    } else {
        RustPointerType::Undefined
    }
}

fn contains_access(permissions: &[PointerAccess], access: PointerAccess) -> (r: bool)
    ensures
        r == permissions@.contains(access),
{
    let mut i: usize = 0;
    while i < permissions.len()
        invariant
            i <= permissions@.len(),
            forall|j: int| 0 <= j < i ==> permissions@[j] != access,
        decreases permissions@.len() - i,
    {
        if permissions[i] == access {
            return true;
        }
        i = i + 1;
    }
    false
}

impl PointerAccess {
    /// The safe Rust pointer type that the given permissions call for.
    ///
    /// Write - Unique - Free - Offset  |  Resulting Type
    ///                                 |      &T
    ///   X       X                     |      &mut T
    ///   X                             |      &Cell<T>
    ///           X       X             |      Box<T>
    ///                           X     |      &[T]
    ///   X       X               X     |      &mut [T]
    ///           X       X       X     |      Box<[T]>
    pub fn determine_rust_type(permissions: &[PointerAccess]) -> (r: RustPointerType)
        ensures
            r == rust_type_for(
                permissions@.contains(PointerAccess::Write),
                permissions@.contains(PointerAccess::Unique),
                permissions@.contains(PointerAccess::Free),
                permissions@.contains(PointerAccess::Offset),
            ),
    {
        let has_write = contains_access(permissions, PointerAccess::Write);
        let has_unique = contains_access(permissions, PointerAccess::Unique);
        let has_free = contains_access(permissions, PointerAccess::Free);
        let has_offset = contains_access(permissions, PointerAccess::Offset);
        match (has_write, has_unique, has_free, has_offset) {
            (false, false, false, false) => RustPointerType::ImmutableReference,
            (true, true, false, false) => RustPointerType::MutableReference,
            (true, false, false, false) => RustPointerType::CellReference,
            (false, true, true, false) => RustPointerType::UniquePointer,
            (false, false, false, true) => RustPointerType::ImmutableSlice,
            (true, true, false, true) => RustPointerType::MutableSlice,
            (false, true, true, true) => RustPointerType::UniqueSlicePointer,
            _ => RustPointerType::Undefined,
        }
    }
}

/// Whether the method name is `offset`.
pub open spec fn is_offset_name(method: Seq<char>) -> bool {
    method == "offset"@
}

/// Whether the method called is `offset`.
pub fn is_offset(method: &str) -> (r: bool)
    ensures
        r == is_offset_name(method@),
{
    String::from_str(method) == String::from_str("offset")
}

/// The set of permissions recorded for a raw pointer.
#[derive(Copy, Clone, Debug, PartialEq, Eq, Structural)]
pub struct AccessSet {
    pub write: bool,
    pub unique: bool,
    pub free: bool,
    pub offset: bool,
}

impl AccessSet {
    /// Whether the set holds the permission.
    pub open spec fn has(self, access: PointerAccess) -> bool {
        match access {
            PointerAccess::Write => self.write,
            PointerAccess::Unique => self.unique,
            PointerAccess::Free => self.free,
            PointerAccess::Offset => self.offset,
        }
    }

    /// Whether every permission of `self` is in `other`.
    pub open spec fn subset_of(self, other: AccessSet) -> bool {
        forall|a: PointerAccess| self.has(a) ==> other.has(a)
    }

    /// The empty set.
    pub fn empty() -> (r: AccessSet)
        ensures
            forall|a: PointerAccess| !r.has(a),
    {
        AccessSet { write: false, unique: false, free: false, offset: false }
    }

    /// The set with one more permission.
    pub fn with(&self, access: PointerAccess) -> (r: AccessSet)
        ensures
            forall|a: PointerAccess| r.has(a) == (self.has(a) || a == access),
    {
        match access {
            PointerAccess::Write => AccessSet { write: true, ..*self },
            PointerAccess::Unique => AccessSet { unique: true, ..*self },
            PointerAccess::Free => AccessSet { free: true, ..*self },
            PointerAccess::Offset => AccessSet { offset: true, ..*self },
        }
    }
}

/// What the analysis keeps of a raw pointer type `*const T` or `*mut T`.
pub struct PointerDecl {
    /// Whether the pointer is `*mut`.
    pub mutable: bool,
    /// The token text of the pointee type `T`.
    pub pointee: String,
}

impl PointerDecl {
    /// A copy of the declaration.
    pub fn duplicate(&self) -> (r: PointerDecl)
        ensures
            r == *self,
    {
        PointerDecl { mutable: self.mutable, pointee: self.pointee.clone() }
    }
}

/// A raw pointer variable: its declared type and the permissions recorded
/// for it so far.
pub struct PointerInfo {
    pub decl: PointerDecl,
    pub accesses: AccessSet,
}

/// What the analysis reads of the receiver of a method call.
pub enum Receiver {
    /// A path such as `p` or `a::p`.
    Path {
        /// Whether the path has a qualified self type, as in `<T as Tr>::p`.
        qualified_self: bool,
        /// The identifier of the last segment of the path.
        last_segment: String,
    },
    /// Any other expression.
    Other,
}

/// What the analysis reads of the left-hand side of an assignment.
pub enum AssignedPlace {
    /// `*(receiver.method(..))`
    DerefOfMethodCall(Receiver),
    /// `*e` where `e` is not a method call, such as `*p`: `e` read as a
    /// receiver is.
    Deref(Receiver),
    /// Any other place.
    Other,
}

/// Where the mapping from pointer variables to safe types stands.
pub enum TypeMappingStateMachine {
    /// Pointer uses are still being identified.
    Uninitialized,
    /// Pointer variables are being mapped to safe types.
    Computing(NameMap<RustPointerType>),
    /// Every pointer variable has its safe type.
    Initialized(NameMap<RustPointerType>),
}

/// The phase of the analysis, as the contracts speak of it.
pub enum MappingPhase {
    Uninitialized,
    Computing(Map<Seq<char>, RustPointerType>),
    Initialized(Map<Seq<char>, RustPointerType>),
}

/// The pointer variable that a receiver names, if it names a recorded one.
pub open spec fn receiver_pointer(pointers: Map<Seq<char>, PointerInfo>, receiver: Receiver) -> Option<Seq<char>> {
    match receiver {
        Receiver::Path { qualified_self, last_segment } => {
            if !qualified_self && pointers.contains_key(last_segment@) {
                Some(last_segment@)
            } else {
                None
            }
        },
        Receiver::Other => None,
    }
}

/// The pointer map with `access` added to the permissions of `name`.
pub open spec fn with_access(
    pointers: Map<Seq<char>, PointerInfo>,
    name: Seq<char>,
    access: PointerAccess,
) -> Map<Seq<char>, PointerInfo> {
    let info = pointers[name];
    pointers.insert(
        name,
        PointerInfo {
            decl: info.decl,
            accesses: AccessSet {
                write: info.accesses.write || access == PointerAccess::Write,
                unique: info.accesses.unique || access == PointerAccess::Unique,
                free: info.accesses.free || access == PointerAccess::Free,
                offset: info.accesses.offset || access == PointerAccess::Offset,
            },
        },
    )
}

/// The safe type that the permissions recorded for a pointer variable call for.
pub open spec fn safe_type(info: PointerInfo) -> RustPointerType {
    rust_type_for(info.accesses.write, info.accesses.unique, info.accesses.free, info.accesses.offset)
}

/// The safe type of each recorded pointer variable.
pub open spec fn safe_types(pointers: Map<Seq<char>, PointerInfo>) -> Map<Seq<char>, RustPointerType> {
    pointers.map_values(|info: PointerInfo| safe_type(info))
}

/// Whether one of the first `i` names is `k`.
pub open spec fn listed(names: Seq<String>, i: int, k: Seq<char>) -> bool {
    exists|j: int| 0 <= j < i && names[j]@ == k
}

/// The safe type that a set of permissions calls for.
fn type_for_accesses(a: AccessSet) -> (r: RustPointerType)
    ensures
        r == rust_type_for(a.write, a.unique, a.free, a.offset),
{
    let mut permissions: Vec<PointerAccess> = Vec::new();
    if a.write {
        permissions.push(PointerAccess::Write);
    }
    if a.unique {
        permissions.push(PointerAccess::Unique);
    }
    if a.free {
        permissions.push(PointerAccess::Free);
    }
    if a.offset {
        permissions.push(PointerAccess::Offset);
    }
    proof {
        assert forall|x: PointerAccess| #[trigger] permissions@.contains(x) == a.has(x) by {
            if a.has(x) {
                let k: int = match x {
                    PointerAccess::Write => 0,
                    PointerAccess::Unique => (if a.write { 1int } else { 0int }),
                    PointerAccess::Free => (if a.write { 1int } else { 0int }) + (if a.unique { 1int } else { 0int }),
                    PointerAccess::Offset => (if a.write { 1int } else { 0int }) + (if a.unique { 1int } else { 0int })
                        + (if a.free { 1int } else { 0int }),
                };
                assert(permissions@[k] == x);
            }
        }
        assert(permissions@.contains(PointerAccess::Write) == a.write);
        assert(permissions@.contains(PointerAccess::Unique) == a.unique);
        assert(permissions@.contains(PointerAccess::Free) == a.free);
        assert(permissions@.contains(PointerAccess::Offset) == a.offset);
    }
    PointerAccess::determine_rust_type(permissions.as_slice())
}

/// The analysis that finds raw pointer variables and the permissions their
/// uses call for.
pub struct RawPointerSanitizer {
    /// Pointer variables and their recorded permissions.
    pointers: NameMap<PointerInfo>,
    /// Mapping between the pointer variables and their safe equivalent types.
    types: TypeMappingStateMachine,
}

impl Default for RawPointerSanitizer {
    fn default() -> (r: Self)
        ensures
            r.wf(),
            r.pointer_map() == Map::<Seq<char>, PointerInfo>::empty(),
            r.phase() is Uninitialized,
    {
        RawPointerSanitizer { pointers: NameMap::new(), types: TypeMappingStateMachine::Uninitialized }
    }
}

impl RawPointerSanitizer {
    /// The invariant of the analysis state.
    pub closed spec fn wf(&self) -> bool {
        &&& self.pointers.wf()
        &&& match self.types {
            TypeMappingStateMachine::Uninitialized => true,
            TypeMappingStateMachine::Computing(m) => m.wf(),
            TypeMappingStateMachine::Initialized(m) => m.wf(),
        }
    }

    /// The recorded pointer variables.
    pub closed spec fn pointer_map(&self) -> Map<Seq<char>, PointerInfo> {
        self.pointers@
    }

    /// The phase of the type mapping.
    pub closed spec fn phase(&self) -> MappingPhase {
        match self.types {
            TypeMappingStateMachine::Uninitialized => MappingPhase::Uninitialized,
            TypeMappingStateMachine::Computing(m) => MappingPhase::Computing(m@),
            TypeMappingStateMachine::Initialized(m) => MappingPhase::Initialized(m@),
        }
    }

    /// Records a pointer variable: a binding `name: *T` from a function
    /// argument or a typed `let`. `binding` is the identifier when the pattern
    /// is a plain identifier; `pointer` describes the type when it is a raw
    /// pointer type. A variable recorded before starts over with no permissions.
    pub fn record_if_pointer(&mut self, binding: Option<String>, pointer: Option<PointerDecl>)
        requires
            old(self).wf(),
        ensures
            final(self).wf(),
            final(self).phase() == old(self).phase(),
            final(self).pointer_map() == match (binding, pointer) {
                (Some(name), Some(decl)) => old(self).pointer_map().insert(
                    name@,
                    PointerInfo { decl, accesses: AccessSet { write: false, unique: false, free: false, offset: false } },
                ),
                _ => old(self).pointer_map(),
            },
    {
        match (binding, pointer) {
            (Some(name), Some(decl)) => {
                let accesses = AccessSet::empty();
                assert(accesses == AccessSet { write: false, unique: false, free: false, offset: false }) by {
                    assert(!accesses.has(PointerAccess::Write));
                    assert(!accesses.has(PointerAccess::Unique));
                    assert(!accesses.has(PointerAccess::Free));
                    assert(!accesses.has(PointerAccess::Offset));
                }
                self.pointers.insert(name, PointerInfo { decl, accesses });
            },
            _ => {},
        }
    }

    /// The recorded pointer variable that the receiver names, if any.
    fn resolve_receiver(&self, receiver: &Receiver) -> (r: Option<String>)
        requires
            self.wf(),
        ensures
            match r {
                Some(name) => receiver_pointer(self.pointer_map(), *receiver) == Some(name@),
                None => receiver_pointer(self.pointer_map(), *receiver) is None,
            },
    {
        match receiver {
            Receiver::Path { qualified_self, last_segment } => {
                if *qualified_self {
                    return None;
                }
                if self.pointers.contains_key(last_segment) {
                    Some(last_segment.clone())
                } else {
                    None
                }
            },
            Receiver::Other => None,
        }
    }

    /// Adds a permission to a recorded pointer variable.
    fn add_access(&mut self, name: String, access: PointerAccess)
        requires
            old(self).wf(),
            old(self).pointer_map().contains_key(name@),
        ensures
            final(self).wf(),
            final(self).phase() == old(self).phase(),
            final(self).pointer_map() == with_access(old(self).pointer_map(), name@, access),
    {
        let updated = match self.pointers.get(&name) {
            Some(info) => {
                let accesses = info.accesses.with(access);
                let ghost old_accesses = info.accesses;
                assert(accesses.write == (old_accesses.write || access == PointerAccess::Write)) by {
                    assert(accesses.has(PointerAccess::Write) == (old_accesses.has(PointerAccess::Write) || PointerAccess::Write == access));
                }
                assert(accesses.unique == (old_accesses.unique || access == PointerAccess::Unique)) by {
                    assert(accesses.has(PointerAccess::Unique) == (old_accesses.has(PointerAccess::Unique) || PointerAccess::Unique == access));
                }
                assert(accesses.free == (old_accesses.free || access == PointerAccess::Free)) by {
                    assert(accesses.has(PointerAccess::Free) == (old_accesses.has(PointerAccess::Free) || PointerAccess::Free == access));
                }
                assert(accesses.offset == (old_accesses.offset || access == PointerAccess::Offset)) by {
                    assert(accesses.has(PointerAccess::Offset) == (old_accesses.has(PointerAccess::Offset) || PointerAccess::Offset == access));
                }
                PointerInfo { decl: info.decl.duplicate(), accesses }
            },
            None => {
                return;
            },
        };
        self.pointers.insert(name, updated);
    }

    /// Records an assignment `*p = ..` or `*(p.method(..)) = ..` through a
    /// recorded pointer `p` as a write through `p`; any other assignment
    /// records nothing.
    pub fn record_assignment(&mut self, place: &AssignedPlace)
        requires
            old(self).wf(),
        ensures
            final(self).wf(),
            final(self).phase() == old(self).phase(),
            final(self).pointer_map() == match *place {
                AssignedPlace::DerefOfMethodCall(receiver) => match receiver_pointer(old(self).pointer_map(), receiver) {
                    Some(name) => with_access(old(self).pointer_map(), name, PointerAccess::Write),
                    None => old(self).pointer_map(),
                },
                AssignedPlace::Deref(target) => match receiver_pointer(old(self).pointer_map(), target) {
                    Some(name) => with_access(old(self).pointer_map(), name, PointerAccess::Write),
                    None => old(self).pointer_map(),
                },
                AssignedPlace::Other => old(self).pointer_map(),
            },
    {
        match place {
            AssignedPlace::DerefOfMethodCall(receiver) => match self.resolve_receiver(receiver) {
                Some(name) => self.add_access(name, PointerAccess::Write),
                None => {},
            },
            AssignedPlace::Deref(target) => match self.resolve_receiver(target) {
                Some(name) => self.add_access(name, PointerAccess::Write),
                None => {},
            },
            AssignedPlace::Other => {},
        }
    }

    /// Records a call `p.offset(..)` on a recorded pointer `p` as an offset
    /// access through `p`; any other method call records nothing.
    pub fn record_method_call(&mut self, method: &str, receiver: &Receiver)
        requires
            old(self).wf(),
        ensures
            final(self).wf(),
            final(self).phase() == old(self).phase(),
            final(self).pointer_map() == match receiver_pointer(old(self).pointer_map(), *receiver) {
                Some(name) => if is_offset_name(method@) {
                    with_access(old(self).pointer_map(), name, PointerAccess::Offset)
                } else {
                    old(self).pointer_map()
                },
                None => old(self).pointer_map(),
            },
    {
        match self.resolve_receiver(receiver) {
            Some(name) => {
                if is_offset(method) {
                    self.add_access(name, PointerAccess::Offset);
                }
            },
            None => {},
        }
    }

    /// Ends the identification of pointer uses: the mapping to safe types
    /// starts, empty. Only an analysis that has not started mapping may end
    /// identification.
    pub fn finish_identification(&mut self)
        requires
            old(self).wf(),
            old(self).phase() is Uninitialized,
        ensures
            final(self).wf(),
            final(self).pointer_map() == old(self).pointer_map(),
            final(self).phase() == MappingPhase::Computing(Map::<Seq<char>, RustPointerType>::empty()),
    {
        self.types = TypeMappingStateMachine::Computing(NameMap::new());
    }

    /// Ends the mapping of pointer variables to safe types: each recorded
    /// pointer variable is mapped to the safe type its permissions call for.
    /// Only an analysis that is mapping may end it.
    pub fn compute_equivalent_safe_types(&mut self)
        requires
            old(self).wf(),
            old(self).phase() is Computing,
        ensures
            final(self).wf(),
            final(self).pointer_map() == old(self).pointer_map(),
            final(self).phase() == MappingPhase::Initialized(
                old(self).phase()->Computing_0.union_prefer_right(safe_types(old(self).pointer_map())),
            ),
    {
        let mut old_state = TypeMappingStateMachine::Uninitialized;
        std::mem::swap(&mut old_state, &mut self.types);
        match old_state {
            TypeMappingStateMachine::Computing(mut map) => {
                let names = self.pointers.names();
                let ghost m0 = map@;
                let ghost ptrs = self.pointers@;
                let mut i: usize = 0;
                while i < names.len()
                    invariant
                        i <= names@.len(),
                        map.wf(),
                        self.pointers.wf(),
                        ptrs == self.pointers@,
                        forall|j: int| 0 <= j < names@.len() ==> ptrs.contains_key(#[trigger] names@[j]@),
                        forall|k: Seq<char>| #[trigger] map@.contains_key(k) == (m0.contains_key(k) || listed(names@, i as int, k)),
                        forall|k: Seq<char>| #[trigger] map@.contains_key(k) ==> map@[k] == if listed(names@, i as int, k) {
                            safe_type(ptrs[k])
                        } else {
                            m0[k]
                        },
                    decreases names@.len() - i,
                {
                    let name = &names[i];
                    match self.pointers.get(name) {
                        Some(info) => {
                            let t = type_for_accesses(info.accesses);
                            map.insert(name.clone(), t);
                        },
                        None => {},
                    }
                    proof {
                        assert forall|k: Seq<char>| listed(names@, i + 1, k) == (listed(names@, i as int, k) || names@[i as int]@ == k) by {
                            if listed(names@, i + 1, k) {
                                let j = choose|j: int| 0 <= j < i + 1 && names@[j]@ == k;
                                if j < i {
                                    assert(listed(names@, i as int, k));
                                }
                            }
                            if listed(names@, i as int, k) {
                                let j = choose|j: int| 0 <= j < i && names@[j]@ == k;
                                assert(0 <= j < i + 1 && names@[j]@ == k);
                            }
                            if names@[i as int]@ == k {
                                assert(0 <= i < i + 1 && names@[i as int]@ == k);
                            }
                        }
                    }
                    i = i + 1;
                }
                proof {
                    let target = m0.union_prefer_right(safe_types(ptrs));
                    assert forall|k: Seq<char>| ptrs.contains_key(k) implies listed(names@, names@.len() as int, k) by {
                        let j = choose|j: int| 0 <= j < names@.len() && names@[j]@ == k;
                    }
                    assert forall|k: Seq<char>| listed(names@, names@.len() as int, k) implies ptrs.contains_key(k) by {
                        let j = choose|j: int| 0 <= j < names@.len() && names@[j]@ == k;
                        assert(ptrs.contains_key(names@[j]@));
                    }
                    assert(map@ =~= target);
                }
                self.types = TypeMappingStateMachine::Initialized(map);
            },
            other => {
                self.types = other;
            },
        }
    }

    /// The safe type the finished mapping gives a pointer variable; `None`
    /// while the mapping is not finished or where it has no entry.
    pub fn safe_type_of(&self, name: &String) -> (r: Option<RustPointerType>)
        requires
            self.wf(),
        ensures
            match self.phase() {
                MappingPhase::Initialized(m) => r == (if m.contains_key(name@) { Some(m[name@]) } else { None }),
                _ => r is None,
            },
    {
        match &self.types {
            TypeMappingStateMachine::Initialized(m) => match m.get(name) {
                Some(t) => Some(*t),
                None => None,
            },
            _ => None,
        }
    }

    /// Whether the analysis may end identification.
    pub fn is_identifying(&self) -> (r: bool)
        ensures
            r == (self.phase() is Uninitialized),
    {
        match self.types {
            TypeMappingStateMachine::Uninitialized => true,
            _ => false,
        }
    }

    /// Whether the analysis is mapping pointer variables to safe types.
    pub fn is_computing(&self) -> (r: bool)
        ensures
            r == (self.phase() is Computing),
    {
        match self.types {
            TypeMappingStateMachine::Computing(_) => true,
            _ => false,
        }
    }

    /// The permissions recorded for a pointer variable, if it is recorded.
    pub fn accesses_of(&self, name: &String) -> (r: Option<AccessSet>)
        requires
            self.wf(),
        ensures
            match r {
                Some(a) => self.pointer_map().contains_key(name@) && self.pointer_map()[name@].accesses == a,
                None => !self.pointer_map().contains_key(name@),
            },
    {
        match self.pointers.get(name) {
            Some(info) => Some(info.accesses),
            None => None,
        }
    }
}

/// The safe type depends on which permissions are present, not on their
/// order or repetition.
pub proof fn lemma_rust_type_depends_on_set(p: Seq<PointerAccess>, q: Seq<PointerAccess>)
    requires
        forall|a: PointerAccess| p.contains(a) == q.contains(a),
    ensures
        rust_type_for(
            p.contains(PointerAccess::Write),
            p.contains(PointerAccess::Unique),
            p.contains(PointerAccess::Free),
            p.contains(PointerAccess::Offset),
        ) == rust_type_for(
            q.contains(PointerAccess::Write),
            q.contains(PointerAccess::Unique),
            q.contains(PointerAccess::Free),
            q.contains(PointerAccess::Offset),
        ),
{
    assert(p.contains(PointerAccess::Write) == q.contains(PointerAccess::Write));
    assert(p.contains(PointerAccess::Unique) == q.contains(PointerAccess::Unique));
    assert(p.contains(PointerAccess::Free) == q.contains(PointerAccess::Free));
    assert(p.contains(PointerAccess::Offset) == q.contains(PointerAccess::Offset));
}

/// Each of the seven combinations of the table gets its own safe type, and
/// every other combination gets `Undefined`.
pub proof fn lemma_rust_type_table(w1: bool, u1: bool, f1: bool, o1: bool, w2: bool, u2: bool, f2: bool, o2: bool)
    ensures
        rust_type_for(w1, u1, f1, o1) == rust_type_for(w2, u2, f2, o2)
            && rust_type_for(w1, u1, f1, o1) != RustPointerType::Undefined
            ==> (w1 == w2 && u1 == u2 && f1 == f2 && o1 == o2),
        (rust_type_for(w1, u1, f1, o1) == RustPointerType::Undefined) == !(
            (!w1 && !u1 && !f1 && !o1) || (w1 && u1 && !f1 && !o1) || (w1 && !u1 && !f1 && !o1)
            || (!w1 && u1 && f1 && !o1) || (!w1 && !u1 && !f1 && o1) || (w1 && u1 && !f1 && o1)
            || (!w1 && u1 && f1 && o1)),
{
}

/// Recording an access through a pointer adds exactly that permission to
/// its set: every other permission it has or lacks stays so, its declared
/// type stays, every other pointer is left as it was, and recording a
/// permission it already has changes nothing.
pub proof fn lemma_with_access_exact(
    pointers: Map<Seq<char>, PointerInfo>,
    name: Seq<char>,
    access: PointerAccess,
)
    requires
        pointers.contains_key(name),
    ensures
        with_access(pointers, name, access).dom() == pointers.dom(),
        forall|b: PointerAccess| #[trigger] with_access(pointers, name, access)[name].accesses.has(b)
            == (pointers[name].accesses.has(b) || b == access),
        with_access(pointers, name, access)[name].decl == pointers[name].decl,
        forall|other: Seq<char>| other != name && pointers.contains_key(other)
            ==> #[trigger] with_access(pointers, name, access)[other] == pointers[other],
        pointers[name].accesses.has(access) ==> with_access(pointers, name, access) == pointers,
{
    assert(with_access(pointers, name, access).dom() =~= pointers.dom());
    if pointers[name].accesses.has(access) {
        let info = pointers[name];
        let a = with_access(pointers, name, access)[name].accesses;
        assert(a.has(PointerAccess::Write) == info.accesses.has(PointerAccess::Write));
        assert(a.has(PointerAccess::Unique) == info.accesses.has(PointerAccess::Unique));
        assert(a.has(PointerAccess::Free) == info.accesses.has(PointerAccess::Free));
        assert(a.has(PointerAccess::Offset) == info.accesses.has(PointerAccess::Offset));
        assert(a == info.accesses);
        assert(with_access(pointers, name, access) =~= pointers);
    }
}

/// Recording uses of pointers never takes a permission away and never
/// records a new variable.
pub proof fn lemma_accesses_only_grow(
    pointers: Map<Seq<char>, PointerInfo>,
    name: Seq<char>,
    access: PointerAccess,
    other: Seq<char>,
)
    requires
        pointers.contains_key(name),
    ensures
        with_access(pointers, name, access).dom() == pointers.dom(),
        pointers.contains_key(other) ==> pointers[other].accesses.subset_of(
            with_access(pointers, name, access)[other].accesses,
        ),
        with_access(pointers, name, access)[name].accesses.has(access),
        with_access(pointers, name, access)[name].decl == pointers[name].decl,
{
    assert(with_access(pointers, name, access).dom() =~= pointers.dom());
}

} // verus!
