//! Code generation from the syntax tree to NASM assembly.
use vstd::prelude::*;

use crate::ast::{ExpressionType, NumberType, TypeModel};
use crate::nasm::{Index, Nasm, owned, line, push_text, inc_text, stag_text};
use crate::text::dec;

verus! {

#[derive(Debug)]
pub enum Error {
    TypeMismatch(ExpressionType, ExpressionType),
    ExpectedNumber(ExpressionType),
    ExpectedInteger(ExpressionType),
    ExpectedRef(ExpressionType),
    InvalidOperator(String),
    UnknownSymbol(String),
    UnknownFunction(String),
    ArityMismatch(usize, usize),
    UnknownType(String),
    MainInvalidSignature,
    CannotAccessStruct,
    CannotAccessArray,
    UnknownField(String, String),
    CannotAllocVoid,
    InvalidIndex,
    BitwiseFloat,
    BitShiftU16,
    ExternFunctionBody,
    ExternCInvalidParameter,
    VariadicStuckerFunction,
    /// A compile-time counter (the stack pointer, a size tag or the label
    /// counter) would leave its integer range.
    LimitExceeded,
    /// An index names a stack item that has already been popped.
    DanglingIndex,
    /// Multiplication, division and remainder are not implemented for floats.
    FloatMath,
    /// The named struct contains itself, so it has no finite size.
    RecursiveStruct(String),
    /// More items would be popped than the modelled stack holds.
    StackUnderflow,
}

/// An error that says nothing about the program's types: a compile-time
/// counter ran out, or an index names no live stack item (a `void` value, or
/// one already popped).
pub open spec fn is_limit_error(e: Error) -> bool {
    e is LimitExceeded || e is InvalidIndex || e is DanglingIndex
}


/// An error that laying out a value can give: a counter ran out, `void`, an
/// unknown struct, or a struct that contains itself.
pub open spec fn is_alloc_error(e: Error) -> bool {
    e is LimitExceeded || e is CannotAllocVoid || e is UnknownType || e is RecursiveStruct
}

/// The entry of `s` that `k` names: the first one with that key.
pub open spec fn first_key<V>(s: Seq<(Seq<char>, V)>, k: Seq<char>) -> Option<int> {
    if exists|i: int| 0 <= i < s.len() && s[i].0 == k && forall|j: int| 0 <= j < i ==> s[j].0 != k {
        Some(choose|i: int| 0 <= i < s.len() && s[i].0 == k && forall|j: int| 0 <= j < i ==> s[j].0 != k)
    } else {
        None
    }
}

/// The value stored under `k` in a table of entries.
pub open spec fn lookup<V>(s: Seq<(Seq<char>, V)>, k: Seq<char>) -> Option<V> {
    match first_key(s, k) {
        Some(i) => Some(s[i].1),
        None => None,
    }
}

pub proof fn lemma_first_key<V>(s: Seq<(Seq<char>, V)>, k: Seq<char>, i: int)
    requires
        0 <= i < s.len(),
        s[i].0 == k,
        forall|j: int| 0 <= j < i ==> s[j].0 != k,
    ensures
        first_key(s, k) == Some(i),
        lookup(s, k) == Some(s[i].1),
{
    let c = choose|i: int| 0 <= i < s.len() && s[i].0 == k && forall|j: int| 0 <= j < i ==> s[j].0 != k;
    assert(0 <= c < s.len() && s[c].0 == k && forall|j: int| 0 <= j < c ==> s[j].0 != k);
    if c < i {
        assert(s[c].0 != k);
    }
    if i < c {
        assert(s[i].0 != k);
    }
}

/// A key present anywhere has a first entry.
pub proof fn lemma_exists_first<V>(s: Seq<(Seq<char>, V)>, k: Seq<char>, j: int)
    requires
        0 <= j < s.len(),
        s[j].0 == k,
    ensures
        first_key(s, k) is Some,
    decreases j,
{
    if exists|l: int| 0 <= l < j && s[l].0 == k {
        let l = choose|l: int| 0 <= l < j && s[l].0 == k;
        lemma_exists_first(s, k, l);
    } else {
        lemma_first_key(s, k, j);
    }
}

/// A key with no first entry appears nowhere.
pub proof fn lemma_absent<V>(s: Seq<(Seq<char>, V)>, k: Seq<char>)
    requires
        first_key(s, k) is None,
    ensures
        forall|j: int| 0 <= j < s.len() ==> s[j].0 != k,
{
    assert forall|j: int| 0 <= j < s.len() implies s[j].0 != k by {
        if s[j].0 == k {
            lemma_exists_first(s, k, j);
        }
    }
}

pub proof fn lemma_no_key<V>(s: Seq<(Seq<char>, V)>, k: Seq<char>)
    requires
        forall|j: int| 0 <= j < s.len() ==> s[j].0 != k,
    ensures
        first_key(s, k) is None,
        lookup(s, k) is None,
{
}

/// A function as the code generator knows it.
pub enum DefinedFunction {
    Stucker(StuckerFunction),
    C(CFunction),
}

pub struct StuckerFunction {
    pub return_type: ExpressionType,
    pub params: Vec<ExpressionType>,
}

pub struct CFunction {
    pub return_type: Option<NumberType>,
    pub params: Vec<NumberType>,
    pub is_variadic: bool,
}

pub struct DefinedStruct {
    pub fields: Vec<(ExpressionType, String)>,
}

/// The model of a function's signature.
pub enum FnModel {
    Stucker { ret: TypeModel, params: Seq<TypeModel> },
    C { c_ret: Option<NumberType>, c_params: Seq<NumberType>, variadic: bool },
}

/// The types of a list of types.
pub open spec fn types_view(v: Seq<ExpressionType>) -> Seq<TypeModel> {
    v.map_values(|t: ExpressionType| t@)
}

/// The model of a struct: its fields' types and names, in order.
pub open spec fn fields_view(v: Seq<(ExpressionType, String)>) -> Seq<(TypeModel, Seq<char>)> {
    v.map_values(|f: (ExpressionType, String)| (f.0@, f.1@))
}

impl View for DefinedFunction {
    type V = FnModel;

    open spec fn view(&self) -> FnModel {
        match self {
            DefinedFunction::Stucker(f) => FnModel::Stucker { ret: f.return_type@, params: types_view(f.params@) },
            DefinedFunction::C(f) => FnModel::C { c_ret: f.return_type, c_params: f.params@, variadic: f.is_variadic },
        }
    }
}

impl View for DefinedStruct {
    type V = Seq<(TypeModel, Seq<char>)>;

    open spec fn view(&self) -> Seq<(TypeModel, Seq<char>)> {
        fields_view(self.fields@)
    }
}

/// The functions and structs defined so far.
pub struct DefinitionTable {
    pub fn_table: Vec<(String, DefinedFunction)>,
    pub struct_table: Vec<(String, DefinedStruct)>,
}

impl DefinitionTable {
    pub open spec fn fns(&self) -> Seq<(Seq<char>, FnModel)> {
        self.fn_table@.map_values(|e: (String, DefinedFunction)| (e.0@, e.1@))
    }

    pub open spec fn structs(&self) -> Seq<(Seq<char>, Seq<(TypeModel, Seq<char>)>)> {
        self.struct_table@.map_values(|e: (String, DefinedStruct)| (e.0@, e.1@))
    }

    pub open spec fn lookup_fn(&self, k: Seq<char>) -> Option<FnModel> {
        lookup(self.fns(), k)
    }

    pub open spec fn lookup_struct(&self, k: Seq<char>) -> Option<Seq<(TypeModel, Seq<char>)>> {
        lookup(self.structs(), k)
    }

    /// An empty table.
    pub fn new() -> (r: Self)
        ensures
            r.fns() == Seq::<(Seq<char>, FnModel)>::empty(),
            r.structs() == Seq::<(Seq<char>, Seq<(TypeModel, Seq<char>)>)>::empty(),
    {
        let r = DefinitionTable { fn_table: Vec::new(), struct_table: Vec::new() };
        assert(r.fns() =~= Seq::<(Seq<char>, FnModel)>::empty());
        assert(r.structs() =~= Seq::<(Seq<char>, Seq<(TypeModel, Seq<char>)>)>::empty());
        r
    }

    /// The function defined under `name`.
    pub fn get_function(&self, name: &str) -> (r: Option<&DefinedFunction>)
        ensures
            match r {
                Some(f) => self.lookup_fn(name@) == Some(f@),
                None => self.lookup_fn(name@) is None,
            },
    {
        let key = owned(name);
        let mut i: usize = 0;
        while i < self.fn_table.len()
            invariant
                i <= self.fn_table.len(),
                key@ == name@,
                forall|j: int| 0 <= j < i ==> self.fns()[j].0 != name@,
            decreases self.fn_table.len() - i,
        {
            if self.fn_table[i].0 == key {
                proof {
                    lemma_first_key(self.fns(), name@, i as int);
                }
                return Some(&self.fn_table[i].1);
            }
            i = i + 1;
        }
        proof {
            lemma_no_key(self.fns(), name@);
        }
        None
    }

    /// The struct defined under `struc`; an undefined struct is
    /// `UnknownType`.
    pub fn get_struct(&self, struc: &str) -> (r: Result<&DefinedStruct, Error>)
        ensures
            match r {
                Ok(s) => self.lookup_struct(struc@) == Some(s@),
                Err(e) => self.lookup_struct(struc@) is None && (e matches Error::UnknownType(n) && n@ == struc@),
            },
    {
        let key = owned(struc);
        let mut i: usize = 0;
        while i < self.struct_table.len()
            invariant
                i <= self.struct_table.len(),
                key@ == struc@,
                forall|j: int| 0 <= j < i ==> self.structs()[j].0 != struc@,
            decreases self.struct_table.len() - i,
        {
            if self.struct_table[i].0 == key {
                proof {
                    lemma_first_key(self.structs(), struc@, i as int);
                }
                return Ok(&self.struct_table[i].1);
            }
            i = i + 1;
        }
        proof {
            lemma_no_key(self.structs(), struc@);
        }
        Err(Error::UnknownType(key))
    }

    /// Defines (or redefines) a function.
    pub fn insert_function(&mut self, name: String, f: DefinedFunction)
        ensures
            final(self).lookup_fn(name@) == Some(f@),
            forall|k: Seq<char>| k != name@ ==> final(self).lookup_fn(k) == old(self).lookup_fn(k),
            final(self).structs() == old(self).structs(),
    {
        let ghost before = self.fns();
        let ghost entry = (name@, f@);
        let mut i: usize = 0;
        while i < self.fn_table.len()
            invariant
                i <= self.fn_table.len(),
                self.fn_table == old(self).fn_table,
                self.struct_table == old(self).struct_table,
                before == self.fns(),
                entry == (name@, f@),
                forall|j: int| 0 <= j < i ==> before[j].0 != name@,
            decreases self.fn_table.len() - i,
        {
            if self.fn_table[i].0 == name {
                let ghost nv = name@;
                self.fn_table.set(i, (name, f));
                proof {
                    assert(before[i as int].0 == name@);
                    assert forall|j: int| 0 <= j < before.len() implies #[trigger] self.fns()[j] == before.update(i as int, entry)[j] by {
                        if j != i {
                            assert(self.fn_table@[j] == old(self).fn_table@[j]);
                        }
                    }
                    assert(self.fns() =~= before.update(i as int, entry));
                    lemma_lookup_after_set(before, i as int, entry.0, entry.1);
                }
                return;
            }
            i = i + 1;
        }
        self.fn_table.push((name, f));
        proof {
            assert(self.fns() =~= before.push(entry));
            lemma_lookup_after_push(before, entry.0, entry.1);
        }
    }

    /// Defines (or redefines) a struct.
    pub fn insert_struct(&mut self, name: String, s: DefinedStruct)
        ensures
            final(self).lookup_struct(name@) == Some(s@),
            forall|k: Seq<char>| k != name@ ==> final(self).lookup_struct(k) == old(self).lookup_struct(k),
            final(self).fns() == old(self).fns(),
            final(self).struct_table.len() <= old(self).struct_table.len() + 1,
    {
        let ghost before = self.structs();
        let ghost entry = (name@, s@);
        let mut i: usize = 0;
        while i < self.struct_table.len()
            invariant
                i <= self.struct_table.len(),
                self.fn_table == old(self).fn_table,
                self.struct_table == old(self).struct_table,
                before == self.structs(),
                entry == (name@, s@),
                forall|j: int| 0 <= j < i ==> before[j].0 != name@,
            decreases self.struct_table.len() - i,
        {
            if self.struct_table[i].0 == name {
                self.struct_table.set(i, (name, s));
                proof {
                    assert(before[i as int].0 == name@);
                    assert forall|j: int| 0 <= j < before.len() implies #[trigger] self.structs()[j] == before.update(i as int, entry)[j] by {
                        if j != i {
                            assert(self.struct_table@[j] == old(self).struct_table@[j]);
                        }
                    }
                    assert(self.structs() =~= before.update(i as int, entry));
                    lemma_lookup_after_set(before, i as int, entry.0, entry.1);
                }
                return;
            }
            i = i + 1;
        }
        self.struct_table.push((name, s));
        proof {
            assert(self.structs() =~= before.push(entry));
            lemma_lookup_after_push(before, entry.0, entry.1);
        }
    }
}

/// Overwriting the first entry of a key stores the new value under it and
/// leaves every other key's value unchanged.
pub proof fn lemma_lookup_after_set<V>(before: Seq<(Seq<char>, V)>, i: int, k: Seq<char>, v: V)
    requires
        0 <= i < before.len(),
        before[i].0 == k,
        forall|j: int| 0 <= j < i ==> before[j].0 != k,
    ensures
        lookup(before.update(i, (k, v)), k) == Some(v),
        forall|k2: Seq<char>| k2 != k ==> lookup(before.update(i, (k, v)), k2) == lookup(before, k2),
{
    let after = before.update(i, (k, v));
    lemma_first_key(after, k, i);
    assert forall|k2: Seq<char>| k2 != k implies lookup(after, k2) == lookup(before, k2) by {
        match first_key(before, k2) {
            Some(m) => {
                lemma_first_key(before, k2, m);
                let c = choose|c: int| 0 <= c < before.len() && before[c].0 == k2 && forall|j: int| 0 <= j < c ==> before[j].0 != k2;
                assert(before[m].0 == k2);
                assert(m != i);
                assert forall|j: int| 0 <= j < m implies after[j].0 != k2 by {
                    if j != i {
                        assert(after[j] == before[j]);
                    }
                }
                lemma_first_key(after, k2, m);
            },
            None => {
                lemma_absent(before, k2);
                assert forall|j: int| 0 <= j < after.len() implies after[j].0 != k2 by {
                    if j != i {
                        assert(after[j] == before[j]);
                    }
                }
                lemma_no_key(after, k2);
            },
        }
    }
}

/// Appending an entry for a new key stores the value under it and leaves
/// every other key's value unchanged.
pub proof fn lemma_lookup_after_push<V>(before: Seq<(Seq<char>, V)>, k: Seq<char>, v: V)
    requires
        forall|j: int| 0 <= j < before.len() ==> before[j].0 != k,
    ensures
        lookup(before.push((k, v)), k) == Some(v),
        forall|k2: Seq<char>| k2 != k ==> lookup(before.push((k, v)), k2) == lookup(before, k2),
{
    let after = before.push((k, v));
    lemma_first_key(after, k, before.len() as int);
    assert forall|k2: Seq<char>| k2 != k implies lookup(after, k2) == lookup(before, k2) by {
        match first_key(before, k2) {
            Some(m) => {
                lemma_first_key(before, k2, m);
                let c = choose|c: int| 0 <= c < before.len() && before[c].0 == k2 && forall|j: int| 0 <= j < c ==> before[j].0 != k2;
                assert forall|j: int| 0 <= j < m implies after[j].0 != k2 by {
                    assert(after[j] == before[j]);
                }
                assert(after[m] == before[m]);
                lemma_first_key(after, k2, m);
            },
            None => {
                lemma_absent(before, k2);
                assert forall|j: int| 0 <= j < after.len() implies after[j].0 != k2 by {
                    if j < before.len() {
                        assert(after[j] == before[j]);
                    }
                }
                lemma_no_key(after, k2);
            },
        }
    }
}


/// What a scope binds a variable to: its type and its index.
pub type Binding = (TypeModel, Option<(u16, Seq<u16>)>);

/// The model of nested scopes: the innermost bindings and the enclosing
/// scopes.
pub struct VarsModel {
    pub data: Seq<(Seq<char>, Binding)>,
    pub outer: Option<Box<VarsModel>>,
}

impl VarsModel {
    /// The binding of `k`: the innermost scope that binds it decides.
    pub open spec fn resolve(self, k: Seq<char>) -> Option<Binding>
        decreases self,
    {
        match lookup(self.data, k) {
            Some(b) => Some(b),
            None => match self.outer {
                Some(o) => o.resolve(k),
                None => None,
            },
        }
    }
}

/// Variables in scope: the innermost scope's bindings and the enclosing
/// scopes.
pub struct VarTable {
    pub outer: Option<Box<VarTable>>,
    pub data: Vec<(String, (ExpressionType, Index))>,
}

/// Binding a name in the innermost scope makes the name resolve to the new
/// binding, and leaves every other name resolving as before.
pub proof fn law_bind_then_resolve(before: VarsModel, after: VarsModel, name: Seq<char>, b: Binding)
    requires
        lookup(after.data, name) == Some(b),
        forall|k: Seq<char>| k != name ==> lookup(after.data, k) == lookup(before.data, k),
        after.outer == before.outer,
    ensures
        after.resolve(name) == Some(b),
        forall|k: Seq<char>| k != name ==> after.resolve(k) == before.resolve(k),
{
}

/// A new, empty scope resolves every name as the scope around it does.
pub proof fn law_empty_scope_resolves_as_outer(inner: VarsModel, outer: VarsModel, k: Seq<char>)
    requires
        inner.data.len() == 0,
        inner.outer == Some(Box::new(outer)),
    ensures
        inner.resolve(k) == outer.resolve(k),
{
    lemma_no_key(inner.data, k);
}

pub open spec fn entries_view(v: Seq<(String, (ExpressionType, Index))>) -> Seq<(Seq<char>, Binding)> {
    v.map_values(|e: (String, (ExpressionType, Index))| (e.0@, (e.1.0@, e.1.1@)))
}

impl View for VarTable {
    type V = VarsModel;

    open spec fn view(&self) -> VarsModel
        decreases self,
    {
        VarsModel {
            data: entries_view(self.data@),
            outer: match &self.outer {
                Some(o) => Some(Box::new((**o)@)),
                None => None,
            },
        }
    }
}

impl Clone for VarTable {
    fn clone(&self) -> (r: Self)
        ensures
            r@ == self@,
        decreases self,
    {
        let outer = match &self.outer {
            Some(o) => Some(Box::new((**o).clone())),
            None => None,
        };
        let mut data: Vec<(String, (ExpressionType, Index))> = Vec::new();
        let mut i: usize = 0;
        while i < self.data.len()
            invariant
                i <= self.data.len(),
                entries_view(data@) == entries_view(self.data@).take(i as int),
            decreases self.data.len() - i,
        {
            let e = &self.data[i];
            let ghost before = data@;
            let n = e.0.clone();
            let t = e.1.0.clone();
            let x = e.1.1.clone();
            proof {
                assert((n@, (t@, x@)) == entries_view(self.data@)[i as int]);
            }
            data.push((n, (t, x)));
            proof {
                assert(entries_view(data@) =~= entries_view(before).push(entries_view(self.data@)[i as int]));
                assert(entries_view(data@) =~= entries_view(self.data@).take(i + 1));
            }
            i = i + 1;
        }
        proof {
            assert(entries_view(self.data@).take(i as int) =~= entries_view(self.data@));
        }
        VarTable { outer, data }
    }
}

impl VarTable {
    /// A new, empty scope inside `outer` (or at the top).
    pub fn new(outer: Option<VarTable>) -> (r: Self)
        ensures
            r@.data == Seq::<(Seq<char>, Binding)>::empty(),
            r@.outer == match outer {
                Some(o) => Some(Box::new(o@)),
                None => None::<Box<VarsModel>>,
            },
    {
        let r = VarTable {
            outer: match outer {
                Some(o) => Some(Box::new(o)),
                None => None,
            },
            data: Vec::new(),
        };
        assert(r@.data =~= Seq::<(Seq<char>, Binding)>::empty());
        r
    }

    /// The type and index bound to `k`, searching from the innermost scope
    /// outwards; an unbound name is `UnknownSymbol`.
    pub fn get_symbol(&self, k: String) -> (r: Result<(ExpressionType, Index), Error>)
        ensures
            match r {
                Ok((t, i)) => self@.resolve(k@) == Some((t@, i@)),
                Err(e) => self@.resolve(k@) is None && (e matches Error::UnknownSymbol(n) && n@ == k@),
            },
        decreases self,
    {
        let mut i: usize = 0;
        while i < self.data.len()
            invariant
                i <= self.data.len(),
                forall|j: int| 0 <= j < i ==> entries_view(self.data@)[j].0 != k@,
            decreases self.data.len() - i,
        {
            if self.data[i].0 == k {
                proof {
                    lemma_first_key(entries_view(self.data@), k@, i as int);
                }
                let e = &self.data[i].1;
                return Ok((e.0.clone(), e.1.clone()));
            }
            i = i + 1;
        }
        proof {
            lemma_no_key(entries_view(self.data@), k@);
        }
        match &self.outer {
            Some(outer) => outer.get_symbol(k),
            None => Err(Error::UnknownSymbol(k)),
        }
    }

    /// Binds `name` in the innermost scope, replacing an earlier binding of
    /// it there.
    pub fn insert(&mut self, name: String, ty: ExpressionType, idx: Index)
        ensures
            lookup(final(self)@.data, name@) == Some((ty@, idx@)),
            forall|k: Seq<char>| k != name@ ==> lookup(final(self)@.data, k) == lookup(old(self)@.data, k),
            final(self)@.outer == old(self)@.outer,
    {
        let ghost before = entries_view(self.data@);
        let ghost entry = (name@, (ty@, idx@));
        let mut i: usize = 0;
        while i < self.data.len()
            invariant
                i <= self.data.len(),
                self.data == old(self).data,
                self.outer == old(self).outer,
                before == entries_view(self.data@),
                entry == (name@, (ty@, idx@)),
                forall|j: int| 0 <= j < i ==> before[j].0 != name@,
            decreases self.data.len() - i,
        {
            if self.data[i].0 == name {
                self.data.set(i, (name, (ty, idx)));
                proof {
                    assert forall|j: int| 0 <= j < before.len() implies #[trigger] entries_view(self.data@)[j]
                        == before.update(i as int, entry)[j] by {
                        if j != i {
                            assert(self.data@[j] == old(self).data@[j]);
                        }
                    }
                    assert(entries_view(self.data@) =~= before.update(i as int, entry));
                    lemma_lookup_after_set(before, i as int, entry.0, entry.1);
                }
                return;
            }
            i = i + 1;
        }
        self.data.push((name, (ty, idx)));
        proof {
            assert(entries_view(self.data@) =~= before.push(entry));
            lemma_lookup_after_push(before, entry.0, entry.1);
        }
    }
}


/// What `push_hidden` writes for an item whose size tag is `tag`.
pub open spec fn hidden_text(tag: int) -> Seq<char> {
    line("sub rsp, "@ + dec(tag as nat) + " ; push_hidden"@) + line("mov qword [rsp], "@ + dec(tag as nat) + " ; push_hidden"@)
}

/// Laying out a value of type `ty` inside another item (a struct or an
/// array): its total size with size tags, and the text written; `None` when
/// the type cannot be laid out (void, an undefined struct, or a struct that
/// would need more than `fuel` nested expansions, i.e. one that contains
/// itself).
pub open spec fn alloc_spec(d: &DefinitionTable, ty: TypeModel, fuel: nat) -> Option<(int, Seq<char>)>
    decreases fuel, 0nat,
{
    match ty {
        TypeModel::Number(t) => Some(((t.spec_size_bytes() + 8) as int, hidden_text(t.spec_size_bytes() + 8))),
        TypeModel::Ref(_) => Some((16, hidden_text(16))),
        TypeModel::Str => Some((16, hidden_text(16))),
        TypeModel::Array(_) => Some((8, hidden_text(8))),
        TypeModel::Void => None,
        TypeModel::Struct(k) => match d.lookup_struct(k) {
            None => None,
            Some(fields) => if fuel == 0 {
                None
            } else {
                match fields_spec(d, fields, (fuel - 1) as nat) {
                    Some((n, t)) => Some((n + 8, t + stag_text(dec((n + 8) as nat)))),
                    None => None,
                }
            },
        },
    }
}

/// Laying out the fields of a struct one after the other.
pub open spec fn fields_spec(d: &DefinitionTable, fields: Seq<(TypeModel, Seq<char>)>, fuel: nat) -> Option<
    (int, Seq<char>),
>
    decreases fuel, fields.len(),
{
    if fields.len() == 0 {
        Some((0, Seq::empty()))
    } else {
        match fields_spec(d, fields.drop_last(), fuel) {
            Some((a, ta)) => match alloc_spec(d, fields.last().0, fuel) {
                Some((b, tb)) => Some((a + b, ta + tb)),
                None => None,
            },
            None => None,
        }
    }
}

/// Allocating a value of type `ty` as a new stack item: its size with tags
/// and the text written.
pub open spec fn alloc_top_spec(d: &DefinitionTable, ty: TypeModel) -> Option<(int, Seq<char>)> {
    match ty {
        TypeModel::Number(t) => Some(((t.spec_size_bytes() + 8) as int, push_text((t.spec_size_bytes() + 8) as nat, "number"@))),
        TypeModel::Ref(_) => Some((16, push_text(16, "ref"@))),
        TypeModel::Str => Some((16, push_text(16, "str"@))),
        TypeModel::Array(_) => Some((8, push_text(8, "array"@))),
        TypeModel::Void => None,
        TypeModel::Struct(k) => match d.lookup_struct(k) {
            None => None,
            Some(fields) => match fields_spec(d, fields, (d.struct_table.len() - 1) as nat) {
                Some((n, t)) => Some((n + 8, t + inc_text() + stag_text(dec((n + 8) as nat)))),
                None => None,
            },
        },
    }
}

pub proof fn lemma_alloc_spec_positive(d: &DefinitionTable, ty: TypeModel, fuel: nat)
    ensures
        alloc_spec(d, ty, fuel) matches Some((n, _)) ==> n >= 8,
    decreases fuel, 0nat,
{
    if let TypeModel::Struct(k) = ty {
        if let Some(fields) = d.lookup_struct(k) {
            if fuel > 0 {
                lemma_fields_spec_nonneg(d, fields, (fuel - 1) as nat);
            }
        }
    }
}

pub proof fn lemma_fields_spec_nonneg(d: &DefinitionTable, fields: Seq<(TypeModel, Seq<char>)>, fuel: nat)
    ensures
        fields_spec(d, fields, fuel) matches Some((n, _)) ==> n >= 0,
    decreases fuel, fields.len(),
{
    if fields.len() > 0 {
        lemma_fields_spec_nonneg(d, fields.drop_last(), fuel);
        lemma_alloc_spec_positive(d, fields.last().0, fuel);
    }
}

/// The layout of a prefix of the fields exists and is no larger than that of
/// all the fields.
pub proof fn lemma_fields_prefix(d: &DefinitionTable, fields: Seq<(TypeModel, Seq<char>)>, fuel: nat, i: int)
    requires
        0 <= i <= fields.len(),
        fields_spec(d, fields, fuel) is Some,
    ensures
        fields_spec(d, fields.take(i), fuel) is Some,
        fields_spec(d, fields.take(i), fuel)->Some_0.0 <= fields_spec(d, fields, fuel)->Some_0.0,
    decreases fields.len() - i,
{
    if i == fields.len() {
        assert(fields.take(i) =~= fields);
    } else {
        lemma_fields_prefix(d, fields, fuel, i + 1);
        let p = fields.take(i + 1);
        assert(p.drop_last() =~= fields.take(i));
        lemma_alloc_spec_positive(d, p.last().0, fuel);
    }
}

impl DefinitionTable {
    fn alloc_hidden_in(&self, nasm: &mut Nasm, expr_ty: &ExpressionType, fuel: usize) -> (r: Result<u16, Error>)
        ensures
            r matches Ok(n) ==> (alloc_spec(self, expr_ty@, fuel as nat) matches Some((m, t)) && m == n
                && final(nasm).writer@ == old(nasm).writer@ + t),
            (alloc_spec(self, expr_ty@, fuel as nat) matches Some((m, _)) && m <= u16::MAX) ==> r is Ok,
            alloc_spec(self, expr_ty@, fuel as nat) is Some ==> (r is Ok || r matches Err(Error::LimitExceeded)),
            r matches Err(e) ==> is_alloc_error(e),
            final(nasm).same_except_writer(old(nasm)),
            old(nasm).writer@.is_prefix_of(final(nasm).writer@),
        decreases fuel,
    {
        match expr_ty {
            ExpressionType::Number(ty) => nasm.push_hidden(ty.size_bytes()),
            ExpressionType::Struct(k) => {
                let struc = self.get_struct(k.as_str())?;
                if fuel == 0 {
                    return Err(Error::RecursiveStruct(k.clone()));
                }
                let ghost fields = struc@;
                let ghost w0 = nasm.writer@;
                let mut size: u16 = 0;
                let mut i: usize = 0;
                while i < struc.fields.len()
                    invariant
                        i <= struc.fields.len(),
                        fuel > 0,
                        fields == struc@,
                        fields.len() == struc.fields.len(),
                        self.lookup_struct(k@) == Some(fields),
                        fields_spec(self, fields.take(i as int), (fuel - 1) as nat) matches Some((m, t)) && m == size
                            && nasm.writer@ == w0 + t,
                        nasm.same_except_writer(old(nasm)),
                        w0 == old(nasm).writer@,
                        (alloc_spec(self, expr_ty@, fuel as nat) matches Some((m, _)) && m <= u16::MAX)
                            ==> fields_spec(self, fields, (fuel - 1) as nat) is Some
                                && fields_spec(self, fields, (fuel - 1) as nat)->Some_0.0 + 8 <= u16::MAX,
                        alloc_spec(self, expr_ty@, fuel as nat) is Some ==> fields_spec(self, fields, (fuel - 1) as nat) is Some,
                    decreases struc.fields.len() - i,
                {
                    let ghost before = nasm.writer@;
                    proof {
                        let p = fields.take(i + 1);
                        assert(p.drop_last() =~= fields.take(i as int));
                        assert(p.last().0 == struc.fields@[i as int].0@);
                        if alloc_spec(self, expr_ty@, fuel as nat) is Some {
                            lemma_fields_prefix(self, fields, (fuel - 1) as nat, i + 1);
                        }
                        if alloc_spec(self, expr_ty@, fuel as nat) matches Some((m, _)) && m <= u16::MAX {
                            lemma_fields_prefix(self, fields, (fuel - 1) as nat, i + 1);
                            lemma_fields_spec_nonneg(self, fields.take(i as int), (fuel - 1) as nat);
                        }
                    }
                    let s = self.alloc_hidden_in(nasm, &struc.fields[i].0, fuel - 1)?;
                    proof {
                        let p = fields.take(i + 1);
                        vstd::seq_lib::lemma_concat_associative(w0, fields_spec(self, fields.take(i as int), (fuel - 1) as nat)->Some_0.1, alloc_spec(self, p.last().0, (fuel - 1) as nat)->Some_0.1);
                    }
                    if size > u16::MAX - s {
                        return Err(Error::LimitExceeded);
                    }
                    size = size + s;
                    i = i + 1;
                }
                proof {
                    assert(fields.take(i as int) =~= fields);
                }
                let ghost w1 = nasm.writer@;
                let r = nasm.push_stag_hidden(size);
                proof {
                    if r is Ok {
                        vstd::seq_lib::lemma_concat_associative(w0, fields_spec(self, fields, (fuel - 1) as nat)->Some_0.1, stag_text(dec((size + 8) as nat)));
                    }
                }
                r
            },
            ExpressionType::Ref(_) => nasm.push_hidden(8),
            ExpressionType::Array(_) => nasm.push_hidden(0),
            ExpressionType::Str => nasm.push_hidden(8),
            ExpressionType::Void => Err(Error::CannotAllocVoid),
        }
    }

    /// Lays out a value of type `expr_ty` inside another item without
    /// counting a stack item; returns its size with size tags.
    pub fn alloc_hidden(&self, nasm: &mut Nasm, expr_ty: &ExpressionType) -> (r: Result<u16, Error>)
        ensures
            r matches Ok(n) ==> (alloc_spec(self, expr_ty@, self.struct_table.len() as nat) matches Some((m, t))
                && m == n && final(nasm).writer@ == old(nasm).writer@ + t),
            (alloc_spec(self, expr_ty@, self.struct_table.len() as nat) matches Some((m, _)) && m <= u16::MAX) ==> r is Ok,
            alloc_spec(self, expr_ty@, self.struct_table.len() as nat) is Some ==> (r is Ok || r matches Err(
                Error::LimitExceeded,
            )),
            final(nasm).same_except_writer(old(nasm)),
            old(nasm).writer@.is_prefix_of(final(nasm).writer@),
    {
        self.alloc_hidden_in(nasm, expr_ty, self.struct_table.len())
    }

    /// Allocates a new stack item for a value of type `expr_ty` and returns
    /// its index.
    pub fn allocate(&self, nasm: &mut Nasm, expr_ty: &ExpressionType) -> (r: Result<Index, Error>)
        ensures
            r matches Ok(idx) ==> (alloc_top_spec(self, expr_ty@) matches Some((m, t))
                && final(nasm).writer@ == old(nasm).writer@ + t
                && idx@ == Some((old(nasm).stack_pointer, Seq::<u16>::empty()))
                && final(nasm).stack_pointer == old(nasm).stack_pointer + 1),
            r is Err ==> final(nasm).stack_pointer == old(nasm).stack_pointer,
            (alloc_top_spec(self, expr_ty@) matches Some((m, _)) && m <= u16::MAX) && old(nasm).items_left(1)
                ==> r is Ok,
            alloc_top_spec(self, expr_ty@) is Some ==> (r is Ok || r matches Err(Error::LimitExceeded)),
            r matches Err(e) ==> is_alloc_error(e),
            expr_ty@ == TypeModel::Void ==> (r matches Err(Error::CannotAllocVoid) && *final(nasm) == *old(nasm)),
            expr_ty@ matches TypeModel::Struct(k) ==> (self.lookup_struct(k) is None ==> (r matches Err(
                Error::UnknownType(n),
            ) && n@ == k && *final(nasm) == *old(nasm))),
            final(nasm).uniq_index == old(nasm).uniq_index,
            final(nasm).rodata@ == old(nasm).rodata@,
            old(nasm).writer@.is_prefix_of(final(nasm).writer@),
    {
        match expr_ty {
            ExpressionType::Number(ty) => nasm.push(ty.size_bytes(), "number"),
            ExpressionType::Struct(k) => {
                let struc = self.get_struct(k.as_str())?;
                proof {
                    assert(first_key(self.structs(), k@) is Some);
                }
                let fuel = self.struct_table.len() - 1;
                let ghost fields = struc@;
                let ghost w0 = nasm.writer@;
                let mut size: u16 = 0;
                let mut i: usize = 0;
                while i < struc.fields.len()
                    invariant
                        i <= struc.fields.len(),
                        fuel == self.struct_table.len() - 1,
                        fields == struc@,
                        fields.len() == struc.fields.len(),
                        self.lookup_struct(k@) == Some(fields),
                        expr_ty@ == TypeModel::Struct(k@),
                        fields_spec(self, fields.take(i as int), fuel as nat) matches Some((m, t)) && m == size
                            && nasm.writer@ == w0 + t,
                        nasm.same_except_writer(old(nasm)),
                        w0 == old(nasm).writer@,
                        (alloc_top_spec(self, expr_ty@) matches Some((m, _)) && m <= u16::MAX)
                            ==> fields_spec(self, fields, fuel as nat) is Some
                                && fields_spec(self, fields, fuel as nat)->Some_0.0 + 8 <= u16::MAX,
                        alloc_top_spec(self, expr_ty@) is Some ==> fields_spec(self, fields, fuel as nat) is Some,
                    decreases struc.fields.len() - i,
                {
                    proof {
                        let p = fields.take(i + 1);
                        assert(p.drop_last() =~= fields.take(i as int));
                        assert(p.last().0 == struc.fields@[i as int].0@);
                        if alloc_top_spec(self, expr_ty@) is Some {
                            lemma_fields_prefix(self, fields, fuel as nat, i + 1);
                        }
                        if alloc_top_spec(self, expr_ty@) matches Some((m, _)) && m <= u16::MAX {
                            lemma_fields_prefix(self, fields, fuel as nat, i + 1);
                            lemma_fields_spec_nonneg(self, fields.take(i as int), fuel as nat);
                        }
                    }
                    let s = self.alloc_hidden_in(nasm, &struc.fields[i].0, fuel)?;
                    proof {
                        let p = fields.take(i + 1);
                        vstd::seq_lib::lemma_concat_associative(w0, fields_spec(self, fields.take(i as int), fuel as nat)->Some_0.1, alloc_spec(self, p.last().0, fuel as nat)->Some_0.1);
                    }
                    if size > u16::MAX - s {
                        return Err(Error::LimitExceeded);
                    }
                    size = size + s;
                    i = i + 1;
                }
                proof {
                    assert(fields.take(i as int) =~= fields);
                }
                let r = nasm.push_stag_val(size);
                proof {
                    if r is Ok {
                        vstd::seq_lib::lemma_concat_associative(w0, fields_spec(self, fields, fuel as nat)->Some_0.1, inc_text() + stag_text(dec((size + 8) as nat)));
                        vstd::seq_lib::lemma_concat_associative(fields_spec(self, fields, fuel as nat)->Some_0.1, inc_text(), stag_text(dec((size + 8) as nat)));
                    }
                }
                r
            },
            ExpressionType::Ref(_) => nasm.push(8, "ref"),
            ExpressionType::Array(_) => nasm.push(0, "array"),
            ExpressionType::Str => nasm.push(8, "str"),
            ExpressionType::Void => Err(Error::CannotAllocVoid),
        }
    }
}

} // verus!
