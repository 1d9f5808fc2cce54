use vstd::prelude::*;

verus! {

/// Compare two byte strings.
pub fn bytes_eq(a: &[u8], b: &[u8]) -> (r: bool)
    ensures
        r == (a@ == b@),
{
    if a.len() != b.len() {
        return false;
    }
    let mut i: usize = 0;
    while i < a.len()
        invariant
            i <= a.len(),
            a.len() == b.len(),
            forall|j: int| 0 <= j < i ==> a@[j] == b@[j],
        decreases a.len() - i,
    {
        if a[i] != b[i] {
            return false;
        }
        i = i + 1;
    }
    proof {
        assert(a@ =~= b@);
    }
    true
}

/// An owned copy of a byte string.
pub fn bytes_clone(a: &Vec<u8>) -> (r: Vec<u8>)
    ensures
        r@ == a@,
{
    vstd::slice::slice_to_vec(a.as_slice())
}

/// The tag of a runtime value.
#[derive(Debug, Clone, Copy, PartialEq, Eq, Structural)]
pub enum ValueTag {
    Nil,
    Str,
    Int,
    Bool,
}

/// A runtime value on the stack or in the variable table: plain data, cheaply
/// duplicable, with no identity. Text is carried as bytes.
#[derive(Debug, PartialEq, Eq)]
pub enum Value {
    Nil,
    Str(Vec<u8>),
    Int(i64),
    Bool(bool),
}

/// Mathematical model of a `Value`.
pub enum ValueV {
    Nil,
    Str(Seq<u8>),
    Int(i64),
    Bool(bool),
}

impl View for Value {
    type V = ValueV;

    open spec fn view(&self) -> ValueV {
        match self {
            Value::Nil => ValueV::Nil,
            Value::Str(s) => ValueV::Str(s@),
            Value::Int(i) => ValueV::Int(*i),
            Value::Bool(b) => ValueV::Bool(*b),
        }
    }
}

/// The tag of a modeled value.
pub open spec fn tag_of(v: ValueV) -> ValueTag {
    match v {
        ValueV::Nil => ValueTag::Nil,
        ValueV::Str(_) => ValueTag::Str,
        ValueV::Int(_) => ValueTag::Int,
        ValueV::Bool(_) => ValueTag::Bool,
    }
}

impl Value {
    /// A human-readable name of the value's type.
    pub fn kind_name(&self) -> (r: &'static str)
        ensures
            tag_of(self@) == ValueTag::Nil ==> r@ == "Nil"@,
            tag_of(self@) == ValueTag::Str ==> r@ == "Str"@,
            tag_of(self@) == ValueTag::Int ==> r@ == "Int"@,
            tag_of(self@) == ValueTag::Bool ==> r@ == "Bool"@,
    {
        match self {
            Value::Nil => "Nil",
            Value::Str(_) => "Str",
            Value::Int(_) => "Int",
            Value::Bool(_) => "Bool",
        }
    }

    /// The value's tag.
    pub fn tag(&self) -> (r: ValueTag)
        ensures
            r == tag_of(self@),
    {
        match self {
            Value::Nil => ValueTag::Nil,
            Value::Str(_) => ValueTag::Str,
            Value::Int(_) => ValueTag::Int,
            Value::Bool(_) => ValueTag::Bool,
        }
    }

    /// An equal copy (a `Clone` with a contract).
    pub fn duplicate(&self) -> (r: Value)
        ensures
            r@ == self@,
    {
        match self {
            Value::Nil => Value::Nil,
            Value::Str(s) => Value::Str(bytes_clone(s)),
            Value::Int(i) => Value::Int(*i),
            Value::Bool(b) => Value::Bool(*b),
        }
    }
}

/// Why execution failed. Failures carry the value or name involved; they are
/// never silently coerced.
#[derive(Debug, PartialEq, Eq)]
pub enum RuntimeError {
    /// An operation needed more operands than the stack holds.
    StackEmpty,
    /// An operand had the wrong type.
    TypeMismatch { expected: ValueTag, found: ValueTag },
    /// A variable was read before any write to it.
    UnboundVariable(Vec<u8>),
    /// A `call` named a directive the block mapping does not hold.
    CallTargetNotFound(Vec<u8>),
    /// The host failed to read or write a file; carries the host's message.
    IoError(Vec<u8>),
    /// The host could not launch a shell at all; carries the host's message.
    ShellLaunchFailed(Vec<u8>),
    /// The engine's step budget ran out (a runaway loop or recursion).
    StepLimitExceeded,
    /// The host answered an effect with a response of the wrong shape.
    HostMismatch,
}

/// Mathematical model of a `RuntimeError`.
pub enum RtErrV {
    StackEmpty,
    TypeMismatch { expected: ValueTag, found: ValueTag },
    UnboundVariable(Seq<u8>),
    CallTargetNotFound(Seq<u8>),
    IoError(Seq<u8>),
    ShellLaunchFailed(Seq<u8>),
    StepLimitExceeded,
    HostMismatch,
}

impl View for RuntimeError {
    type V = RtErrV;

    open spec fn view(&self) -> RtErrV {
        match self {
            RuntimeError::StackEmpty => RtErrV::StackEmpty,
            RuntimeError::TypeMismatch { expected, found } => RtErrV::TypeMismatch {
                expected: *expected,
                found: *found,
            },
            RuntimeError::UnboundVariable(n) => RtErrV::UnboundVariable(n@),
            RuntimeError::CallTargetNotFound(n) => RtErrV::CallTargetNotFound(n@),
            RuntimeError::IoError(m) => RtErrV::IoError(m@),
            RuntimeError::ShellLaunchFailed(m) => RtErrV::ShellLaunchFailed(m@),
            RuntimeError::StepLimitExceeded => RtErrV::StepLimitExceeded,
            RuntimeError::HostMismatch => RtErrV::HostMismatch,
        }
    }
}

/// The value stack, last in first out; the top is the end of the sequence.
#[derive(Debug)]
pub struct Stack {
    inner: Vec<Value>,
}

impl View for Stack {
    type V = Seq<ValueV>;

    closed spec fn view(&self) -> Seq<ValueV> {
        self.inner@.map(|i: int, v: Value| v@)
    }
}

impl Stack {
    pub fn new() -> (r: Stack)
        ensures
            r@ == Seq::<ValueV>::empty(),
    {
        let s = Stack { inner: Vec::new() };
        proof {
            assert(s@ =~= Seq::<ValueV>::empty());
        }
        s
    }

    /// The top value, if any, without removing it.
    pub fn top(&self) -> (r: Option<&Value>)
        ensures
            match r {
                Some(v) => self@.len() > 0 && v@ == self@.last(),
                None => self@.len() == 0,
            },
    {
        if self.inner.len() == 0 {
            None
        } else {
            Some(&self.inner[self.inner.len() - 1])
        }
    }

    /// Remove and return the top value; an empty stack is a runtime failure.
    pub fn pop(&mut self) -> (r: Result<Value, RuntimeError>)
        ensures
            match r {
                Ok(v) => old(self)@.len() > 0 && v@ == old(self)@.last() && final(self)@ == old(
                    self,
                )@.drop_last(),
                Err(e) => old(self)@.len() == 0 && final(self)@ == old(self)@ && e@
                    == RtErrV::StackEmpty,
            },
    {
        match self.inner.pop() {
            Some(v) => {
                proof {
                    assert(self@ =~= old(self)@.drop_last());
                }
                Ok(v)
            },
            None => {
                proof {
                    assert(self@ =~= old(self)@);
                }
                Err(RuntimeError::StackEmpty)
            },
        }
    }

    /// An equal copy of the whole stack, bottom first.
    pub fn snapshot(&self) -> (r: Vec<Value>)
        ensures
            r@.map(|i: int, v: Value| v@) == self@,
    {
        let mut r: Vec<Value> = Vec::new();
        let mut i: usize = 0;
        while i < self.inner.len()
            invariant
                i <= self.inner@.len(),
                r@.len() == i,
                forall|j: int| 0 <= j < i ==> r@[j]@ == self.inner@[j]@,
            decreases self.inner@.len() - i,
        {
            r.push(self.inner[i].duplicate());
            i = i + 1;
        }
        proof {
            assert(r@.map(|i: int, v: Value| v@) =~= self@);
        }
        r
    }

    /// Push a value.
    pub fn push(&mut self, v: Value)
        ensures
            final(self)@ == old(self)@.push(v@),
    {
        self.inner.push(v);
        proof {
            assert(self@ =~= old(self)@.push(v@));
        }
    }
}

// ---------------------------------------------------------------------------
// A name-to-value table
// ---------------------------------------------------------------------------

/// The mapping an entry list stands for: later entries shadow earlier ones.
pub open spec fn map_of<V: View>(s: Seq<(Vec<u8>, V)>) -> Map<Seq<u8>, V::V>
    decreases s.len(),
{
    if s.len() == 0 {
        Map::empty()
    } else {
        map_of(s.drop_last()).insert(s.last().0@, s.last().1@)
    }
}

/// A table keyed by byte-string names, stored as an entry list in insertion
/// order; a later entry for the same name shadows the earlier one. Lookups
/// walk from the end, so they see the newest binding.
#[derive(Debug)]
pub struct StrMap<V> {
    entries: Vec<(Vec<u8>, V)>,
}

impl<V: View> View for StrMap<V> {
    type V = Map<Seq<u8>, V::V>;

    closed spec fn view(&self) -> Map<Seq<u8>, V::V> {
        map_of(self.entries@)
    }
}

impl<V: View> StrMap<V> {
    /// How many entries the table holds (bindings, not distinct names).
    pub closed spec fn entry_count(self) -> int {
        self.entries@.len() as int
    }

    /// The name of entry `i`.
    pub closed spec fn key_at(self, i: int) -> Seq<u8> {
        self.entries@[i].0@
    }

    /// The value of entry `i`.
    pub closed spec fn val_view_at(self, i: int) -> V::V {
        self.entries@[i].1@
    }

    pub fn new() -> (r: StrMap<V>)
        ensures
            r@ == Map::<Seq<u8>, V::V>::empty(),
            r.entry_count() == 0,
    {
        StrMap { entries: Vec::new() }
    }

    pub fn len(&self) -> (r: usize)
        ensures
            r == self.entry_count(),
    {
        self.entries.len()
    }

    /// Bind `k` to `v`, shadowing any earlier binding.
    pub fn insert(&mut self, k: Vec<u8>, v: V)
        ensures
            final(self)@ == old(self)@.insert(k@, v@),
            final(self).entry_count() == old(self).entry_count() + 1,
            final(self).key_at(old(self).entry_count()) == k@,
            final(self).val_view_at(old(self).entry_count()) == v@,
            forall|i: int|
                0 <= i < old(self).entry_count() ==> final(self).key_at(i) == old(self).key_at(i)
                    && final(self).val_view_at(i) == old(self).val_view_at(i),
    {
        self.entries.push((k, v));
        proof {
            assert(self.entries@.drop_last() =~= old(self).entries@);
        }
    }

    /// The index of the newest entry for `k`, if any.
    pub fn index_of(&self, k: &[u8]) -> (r: Option<usize>)
        ensures
            match r {
                Some(i) => 0 <= i < self.entry_count() && self.key_at(i as int) == k@
                    && self@.contains_key(k@) && self@[k@] == self.val_view_at(i as int),
                None => !self@.contains_key(k@),
            },
    {
        let mut i: usize = self.entries.len();
        proof {
            assert(self.entries@.take(i as int) =~= self.entries@);
        }
        while i > 0
            invariant
                i <= self.entry_count(),
                map_of(self.entries@).contains_key(k@) == map_of(
                    self.entries@.take(i as int),
                ).contains_key(k@),
                map_of(self.entries@).contains_key(k@) ==> map_of(self.entries@)[k@] == map_of(
                    self.entries@.take(i as int),
                )[k@],
            decreases i,
        {
            proof {
                assert(self.entries@.take(i as int).drop_last() =~= self.entries@.take(i - 1));
                assert(self.entries@.take(i as int).last() == self.entries@[i - 1]);
            }
            if bytes_eq(self.entries[i - 1].0.as_slice(), k) {
                return Some(i - 1);
            }
            i = i - 1;
        }
        proof {
            assert(self.entries@.take(0) =~= Seq::<(Vec<u8>, V)>::empty());
        }
        None
    }

    /// The newest binding of `k`, if any.
    pub fn get(&self, k: &[u8]) -> (r: Option<&V>)
        ensures
            match r {
                Some(v) => self@.contains_key(k@) && self@[k@] == v@,
                None => !self@.contains_key(k@),
            },
    {
        match self.index_of(k) {
            Some(i) => Some(&self.entries[i].1),
            None => None,
        }
    }

    /// Whether `k` is bound.
    pub fn contains(&self, k: &[u8]) -> (r: bool)
        ensures
            r == self@.contains_key(k@),
    {
        match self.index_of(k) {
            Some(_) => true,
            None => false,
        }
    }

    /// The name of entry `i`.
    pub fn key_vec_at(&self, i: usize) -> (r: &Vec<u8>)
        requires
            0 <= i < self.entry_count(),
        ensures
            r@ == self.key_at(i as int),
    {
        &self.entries[i].0
    }

    /// The value of entry `i`.
    pub fn val_at(&self, i: usize) -> (r: &V)
        requires
            0 <= i < self.entry_count(),
        ensures
            r@ == self.val_view_at(i as int),
            self@.contains_key(self.key_at(i as int)),
    {
        proof {
            lemma_map_of_contains(self.entries@, i as int);
        }
        &self.entries[i].1
    }

    /// Every entry's name is in the mapping.
    pub proof fn lemma_keys_in_dom(&self, i: int)
        requires
            0 <= i < self.entry_count(),
        ensures
            self@.contains_key(self.key_at(i)),
    {
        lemma_map_of_contains(self.entries@, i);
    }
}

/// The name of any entry is a key of the mapping the list stands for.
proof fn lemma_map_of_contains<V: View>(s: Seq<(Vec<u8>, V)>, i: int)
    requires
        0 <= i < s.len(),
    ensures
        map_of(s).contains_key(s[i].0@),
    decreases s.len(),
{
    if i < s.len() - 1 {
        lemma_map_of_contains(s.drop_last(), i);
        assert(s.drop_last()[i] == s[i]);
    }
}

} // verus!
