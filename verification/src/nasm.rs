//! The NASM emitter: assembly text, a read-only data section, the label
//! counter and the compile-time model of the runtime stack.
//!
//! Every stack item is `<DATA> <SIZE>`: the size tag is 8 bytes and counts
//! itself. The emitter tracks how many items are on the stack
//! (`stack_pointer`); an `Index` names an item by its position from the
//! bottom, followed by a path of positions inside nested items.
use vstd::prelude::*;

use crate::ast::{ExpressionType, NumberType, TypeModel};
use crate::codegen::Error;
use crate::text::{dec, push_char, u64_text};
use vstd::string::StringSliceAdditionalSpecFns;
use vstd::std_specs::iter::IteratorSpec;

verus! {

/// One indented assembly line.
pub open spec fn line(l: Seq<char>) -> Seq<char> {
    "    "@ + l + "\n"@
}

pub open spec fn is_ascii_alpha(c: char) -> bool {
    ('a' <= c && c <= 'z') || ('A' <= c && c <= 'Z')
}

pub open spec fn is_ascii_alnum(c: char) -> bool {
    is_ascii_alpha(c) || ('0' <= c && c <= '9')
}

/// A register name as the emitter accepts it: ASCII letters only.
pub open spec fn is_reg_name(s: Seq<char>) -> bool {
    forall|i: int| 0 <= i < s.len() ==> is_ascii_alpha(#[trigger] s[i])
}

/// Whether `c` has Unicode's Alphabetic property: what `char::is_alphabetic`
/// answers.
pub uninterp spec fn unicode_alphabetic(c: char) -> bool;

/// Whether `c` has Unicode's Alphabetic or Numeric property: what
/// `char::is_alphanumeric` answers.
pub uninterp spec fn unicode_alphanumeric(c: char) -> bool;

/// `char::is_alphabetic`: whether `c` has Unicode's Alphabetic property.
#[verifier::external_body]
fn char_is_alphabetic(c: char) -> (r: bool)
    ensures
        r == unicode_alphabetic(c),
{
    c.is_alphabetic()
}

/// `char::is_alphanumeric`: whether `c` has Unicode's Alphabetic or Numeric
/// property.
#[verifier::external_body]
fn char_is_alphanumeric(c: char) -> (r: bool)
    ensures
        r == unicode_alphanumeric(c),
{
    c.is_alphanumeric()
}

/// A character a label may start with: a letter (of ASCII, or of Unicode
/// beyond it), `.`, `_` or `?`.
pub open spec fn label_first(c: char) -> bool {
    is_ascii_alpha(c) || c == '.' || c == '_' || c == '?' || ((c as u32) >= 128 && unicode_alphabetic(c))
}

/// A character a label may hold: a letter or digit (of ASCII, or of Unicode
/// beyond it) or one of `_$#@.?`.
pub open spec fn label_char(c: char) -> bool {
    is_ascii_alnum(c) || c == '_' || c == '$' || c == '#' || c == '@' || c == '.' || c == '?' || ((c as u32) >= 128
        && unicode_alphanumeric(c))
}

/// A label as the emitter accepts it: a letter, `.`, `_` or `?` first, then
/// letters, digits and `_$#@.?`.
pub open spec fn is_label_name(s: Seq<char>) -> bool {
    &&& s.len() > 0
    &&& label_first(s[0])
    &&& forall|i: int| 0 <= i < s.len() ==> label_char(#[trigger] s[i])
}

/// Whether `name` is a label the emitter accepts (`is_label_name`).
pub fn validate_symbol(name: &str) -> (r: bool)
    ensures
        r == is_label_name(name@),
{
    broadcast use vstd::string::axiom_spec_iter, vstd::string::next_postcondition;
    let mut it = name.chars();
    let ghost s = name@;
    let ghost mut k: int = 0;
    let mut ok = true;
    let mut first = true;
    loop
        invariant
            0 <= k <= s.len(),
            s == name@,
            it.remaining() == s.skip(k),
            first == (k == 0),
            ok == ((k > 0 ==> label_first(s[0])) && forall|j: int| 0 <= j < k ==> label_char(#[trigger] s[j])),
        ensures
            k == s.len(),
            first == (k == 0),
            ok == ((k > 0 ==> label_first(s[0])) && forall|j: int| 0 <= j < k ==> label_char(#[trigger] s[j])),
        decreases s.len() - k,
    {
        let ghost before = it.remaining();
        match it.next() {
            None => {
                proof {
                    assert(before.len() == 0);
                    assert(s.skip(k).len() == s.len() - k);
                }
                break;
            },
            Some(c) => {
                proof {
                    assert(s.skip(k).len() == s.len() - k);
                    assert(c == s.skip(k)[0]);
                    assert(c == s[k]);
                }
                let ascii = (c as u32) < 128;
                let alpha = ('a' <= c && c <= 'z') || ('A' <= c && c <= 'Z');
                let digit = '0' <= c && c <= '9';
                let good = if first {
                    let letter = if ascii {
                        alpha
                    } else {
                        char_is_alphabetic(c)
                    };
                    letter || c == '.' || c == '_' || c == '?'
                } else {
                    true
                };
                let an = if ascii {
                    alpha || digit
                } else {
                    char_is_alphanumeric(c)
                };
                let cc = an || c == '_' || c == '$' || c == '#' || c == '@' || c == '.' || c == '?';
                proof {
                    assert(cc == label_char(c));
                    assert(first ==> good == label_first(c));
                }
                ok = ok && good && cc;
                first = false;
                proof {
                    k = k + 1;
                    assert(it.remaining() =~= s.skip(k));
                }
            },
        }
    }
    ok && !first
}

/// Concatenation of two strings.
pub fn cat(a: String, b: &str) -> (r: String)
    ensures
        r@ == a@ + b@,
{
    a.concat(b)
}

/// An owned copy of a string slice.
pub fn owned(a: &str) -> (r: String)
    ensures
        r@ == a@,
{
    String::from_str(a)
}

#[derive(Debug)]
pub enum RegisterSize {
    S64,
    S32,
    S16,
    S8,
}

impl RegisterSize {
    pub open spec fn spec_a(&self) -> Seq<char> {
        match self {
            RegisterSize::S64 => "rax"@,
            RegisterSize::S32 => "eax"@,
            RegisterSize::S16 => "ax"@,
            RegisterSize::S8 => "al"@,
        }
    }

    pub open spec fn spec_b(&self) -> Seq<char> {
        match self {
            RegisterSize::S64 => "rbx"@,
            RegisterSize::S32 => "ebx"@,
            RegisterSize::S16 => "bx"@,
            RegisterSize::S8 => "bl"@,
        }
    }

    pub open spec fn spec_c(&self) -> Seq<char> {
        match self {
            RegisterSize::S64 => "rcx"@,
            RegisterSize::S32 => "ecx"@,
            RegisterSize::S16 => "cx"@,
            RegisterSize::S8 => "cl"@,
        }
    }

    pub open spec fn spec_d(&self) -> Seq<char> {
        match self {
            RegisterSize::S64 => "rdx"@,
            RegisterSize::S32 => "edx"@,
            RegisterSize::S16 => "dx"@,
            RegisterSize::S8 => "dl"@,
        }
    }

    /// The variant's name, as `{:?}` writes it.
    pub open spec fn spec_debug(&self) -> Seq<char> {
        match self {
            RegisterSize::S64 => "S64"@,
            RegisterSize::S32 => "S32"@,
            RegisterSize::S16 => "S16"@,
            RegisterSize::S8 => "S8"@,
        }
    }

    pub open spec fn spec_size_bytes(&self) -> u16 {
        match self {
            RegisterSize::S64 => 8,
            RegisterSize::S32 => 4,
            RegisterSize::S16 => 2,
            RegisterSize::S8 => 1,
        }
    }

    /// The `a` register of this width.
    pub fn a(&self) -> (r: &'static str)
        ensures
            r@ == self.spec_a(),
            is_reg_name(r@),
    {
        proof {
            reveal_strlit("rax");
            reveal_strlit("eax");
            reveal_strlit("ax");
            reveal_strlit("al");
        }
        match self {
            RegisterSize::S64 => "rax",
            RegisterSize::S32 => "eax",
            RegisterSize::S16 => "ax",
            RegisterSize::S8 => "al",
        }
    }

    /// The `b` register of this width.
    pub fn b(&self) -> (r: &'static str)
        ensures
            r@ == self.spec_b(),
            is_reg_name(r@),
    {
        proof {
            reveal_strlit("rbx");
            reveal_strlit("ebx");
            reveal_strlit("bx");
            reveal_strlit("bl");
        }
        match self {
            RegisterSize::S64 => "rbx",
            RegisterSize::S32 => "ebx",
            RegisterSize::S16 => "bx",
            RegisterSize::S8 => "bl",
        }
    }

    /// The `c` register of this width.
    pub fn c(&self) -> (r: &'static str)
        ensures
            r@ == self.spec_c(),
            is_reg_name(r@),
    {
        proof {
            reveal_strlit("rcx");
            reveal_strlit("ecx");
            reveal_strlit("cx");
            reveal_strlit("cl");
        }
        match self {
            RegisterSize::S64 => "rcx",
            RegisterSize::S32 => "ecx",
            RegisterSize::S16 => "cx",
            RegisterSize::S8 => "cl",
        }
    }

    /// The `d` register of this width.
    pub fn d(&self) -> (r: &'static str)
        ensures
            r@ == self.spec_d(),
            is_reg_name(r@),
    {
        proof {
            reveal_strlit("rdx");
            reveal_strlit("edx");
            reveal_strlit("dx");
            reveal_strlit("dl");
        }
        match self {
            RegisterSize::S64 => "rdx",
            RegisterSize::S32 => "edx",
            RegisterSize::S16 => "dx",
            RegisterSize::S8 => "dl",
        }
    }

    /// Width of the register in bytes.
    pub fn size_bytes(&self) -> (r: u16)
        ensures
            r == self.spec_size_bytes(),
    {
        match self {
            RegisterSize::S64 => 64 / 8,
            RegisterSize::S32 => 32 / 8,
            RegisterSize::S16 => 16 / 8,
            RegisterSize::S8 => 8 / 8,
        }
    }

    /// The variant's name, as `{:?}` writes it.
    pub fn debug_name(&self) -> (r: &'static str)
        ensures
            r@ == self.spec_debug(),
    {
        match self {
            RegisterSize::S64 => "S64",
            RegisterSize::S32 => "S32",
            RegisterSize::S16 => "S16",
            RegisterSize::S8 => "S8",
        }
    }
}

/// The position of a live stack item and a path into nested items.
pub struct ValidIndex(pub u16, pub Vec<u16>);

/// An index of a stack item, or `void` for the result of a `void` call.
pub struct Index(pub Option<ValidIndex>);

impl View for ValidIndex {
    type V = (u16, Seq<u16>);

    open spec fn view(&self) -> (u16, Seq<u16>) {
        (self.0, self.1@)
    }
}

impl View for Index {
    type V = Option<(u16, Seq<u16>)>;

    open spec fn view(&self) -> Option<(u16, Seq<u16>)> {
        match &self.0 {
            Some(v) => Some(v@),
            None => None,
        }
    }
}

impl Clone for ValidIndex {
    fn clone(&self) -> (r: Self)
        ensures
            r@ == self@,
    {
        ValidIndex(self.0, self.1.clone())
    }
}

impl Clone for Index {
    fn clone(&self) -> (r: Self)
        ensures
            r@ == self@,
    {
        match &self.0 {
            Some(v) => Index(Some(v.clone())),
            None => Index(None),
        }
    }
}

/// `{:?}` of a valid index: `<item>` followed by `[step]` per path element.
pub open spec fn valid_index_debug(item: u16, path: Seq<u16>) -> Seq<char>
    decreases path.len(),
{
    if path.len() == 0 {
        "<"@ + dec(item as nat) + ">"@
    } else {
        valid_index_debug(item, path.drop_last()) + "["@ + dec(path.last() as nat) + "]"@
    }
}

impl ValidIndex {
    /// `{:?}` of the index: `<item>` followed by `[step]` per path element.
    pub fn debug_text(&self) -> (r: String)
        ensures
            r@ == valid_index_debug(self.0, self.1@),
    {
        let mut s = cat(cat(owned("<"), u64_text(self.0 as u64).as_str()), ">");
        let mut i: usize = 0;
        while i < self.1.len()
            invariant
                i <= self.1.len(),
                s@ == valid_index_debug(self.0, self.1@.take(i as int)),
            decreases self.1.len() - i,
        {
            assert(self.1@.take(i + 1).drop_last() =~= self.1@.take(i as int));
            s = cat(cat(cat(s, "["), u64_text(self.1[i] as u64).as_str()), "]");
            i = i + 1;
        }
        assert(self.1@.take(i as int) =~= self.1@);
        s
    }
}

impl Index {
    /// The index of the stack item at `value`, with an empty path.
    pub fn new(value: u16) -> (r: Self)
        ensures
            r@ == Some((value, Seq::<u16>::empty())),
    {
        Index(Some(ValidIndex(value, Vec::new())))
    }

    /// The index of a `void` value.
    pub fn void() -> (r: Self)
        ensures
            r@ is None,
    {
        Index(None)
    }

    /// Mutable access to the valid index; a `void` index is `InvalidIndex`.
    pub fn valid_mut(&mut self) -> (r: Result<&mut ValidIndex, Error>)
        ensures
            old(self)@ is None ==> (r matches Err(Error::InvalidIndex) && final(self)@ == old(self)@),
            old(self)@ is Some ==> (r matches Ok(v) && v@ == old(self)@->Some_0
                && final(self)@ == Some(final(v)@)),
    {
        match &mut self.0 {
            Some(idx) => Ok(idx),
            None => Err(Error::InvalidIndex),
        }
    }

    /// Shared access to the valid index; a `void` index is `InvalidIndex`.
    pub fn valid(&self) -> (r: Result<&ValidIndex, Error>)
        ensures
            self@ is None ==> r matches Err(Error::InvalidIndex),
            self@ is Some ==> (r matches Ok(v) && v@ == self@->Some_0),
    {
        match &self.0 {
            Some(idx) => Ok(idx),
            None => Err(Error::InvalidIndex),
        }
    }
}


/// A label definition line.
pub open spec fn label(name: Seq<char>) -> Seq<char> {
    name + ":\n"@
}

/// The escaped name of a local label made while the label counter is `u`.
pub open spec fn local_name(name: Seq<char>, u: nat) -> Seq<char> {
    "._"@ + name + "_"@ + dec(u)
}

/// The characters a label may hold after its first.
pub open spec fn is_label_text(s: Seq<char>) -> bool {
    forall|i: int| 0 <= i < s.len() ==> label_char(#[trigger] s[i])
}

pub proof fn lemma_local_name_is_label(name: Seq<char>, u: nat)
    requires
        is_label_text(name),
    ensures
        is_label_name(local_name(name, u)),
{
    reveal_strlit("._");
    reveal_strlit("_");
    crate::text::lemma_dec_digits(u);
    let s = local_name(name, u);
    assert forall|i: int| 0 <= i < s.len() implies label_char(#[trigger] s[i]) by {
        if i < 2 {
        } else if i < 2 + name.len() {
            assert(s[i] == name[i - 2]);
        } else if i == 2 + name.len() {
        } else {
            assert(s[i] == dec(u)[i - 3 - name.len()]);
        }
    }
}

/// Local labels never clash: the escaped name of a local label determines
/// the name it was made from and the label counter when it was made, so two
/// labels made at different counts (or from different names) differ.
pub proof fn law_local_names_distinct(n1: Seq<char>, u1: nat, n2: Seq<char>, u2: nat)
    requires
        local_name(n1, u1) == local_name(n2, u2),
    ensures
        n1 == n2,
        u1 == u2,
{
    reveal_strlit("._");
    reveal_strlit("_");
    let s1 = local_name(n1, u1);
    let s2 = local_name(n2, u2);
    let d1 = dec(u1);
    let d2 = dec(u2);
    crate::text::lemma_dec_digits(u1);
    crate::text::lemma_dec_digits(u2);
    let l = s1.len();
    assert(s1.len() == 3 + n1.len() + d1.len());
    assert(s2.len() == 3 + n2.len() + d2.len());
    assert(s1[l - 1 - d1.len()] == '_');
    assert(s2[l - 1 - d2.len()] == '_');
    if d1.len() < d2.len() {
        let k = l - 1 - d1.len();
        assert(s2[k] == d2[k - (l - d2.len())]);
        assert(false);
    }
    if d2.len() < d1.len() {
        let k = l - 1 - d2.len();
        assert(s1[k] == d1[k - (l - d1.len())]);
        assert(false);
    }
    assert(d1 =~= s1.subrange(l - d1.len(), l as int));
    assert(d2 =~= s2.subrange(l - d2.len(), l as int));
    crate::text::lemma_dec_injective(u1, u2);
    assert(n1 =~= s1.subrange(2, 2 + n1.len() as int));
    assert(n2 =~= s2.subrange(2, 2 + n2.len() as int));
}

/// The local label made while the label counter is `u` is a valid label.
pub proof fn lemma_local_label_valid(name: Seq<char>, u: usize)
    requires
        is_label_text(name),
    ensures
        is_label_name(local_name(name, u as nat)),
{
    lemma_local_name_is_label(name, u as nat);
}

pub proof fn lemma_global_name_is_label(name: Seq<char>)
    requires
        is_label_text(name),
    ensures
        is_label_name("_"@ + name),
{
    reveal_strlit("_");
    let s = "_"@ + name;
    assert forall|i: int| 0 <= i < s.len() implies label_char(#[trigger] s[i]) by {
        if i >= 1 {
            assert(s[i] == name[i - 1]);
        }
    }
}

pub open spec fn inc_text() -> Seq<char> {
    line("add rbp, 1 ; inc_stack"@)
}

pub open spec fn dec_text() -> Seq<char> {
    line("sub rbp, 1 ; dec_stack"@)
}

/// What `pop` writes.
pub open spec fn pop_text() -> Seq<char> {
    dec_text() + line("add rsp, [rsp] ; pop"@)
}

/// What `pop` writes, `n` times.
pub open spec fn pops_text(n: nat) -> Seq<char>
    decreases n,
{
    if n == 0 {
        Seq::empty()
    } else {
        pops_text((n - 1) as nat) + pop_text()
    }
}

/// What `push` writes for an item whose size tag is `tag`.
pub open spec fn push_text(tag: nat, name: Seq<char>) -> Seq<char> {
    inc_text() + line("sub rsp, "@ + dec(tag) + " ; push ("@ + name + ")"@) + line(
        "mov qword [rsp], "@ + dec(tag) + " ; push ("@ + name + ")"@,
    )
}

pub open spec fn push_register_text(reg: Seq<char>, size: RegisterSize) -> Seq<char> {
    push_text((size.spec_size_bytes() + 8) as nat, "reg"@) + line("mov [rsp+8], "@ + reg + " ; push_register"@)
}

pub open spec fn pop_register_text(reg: Seq<char>) -> Seq<char> {
    line("mov "@ + reg + ", [rsp+8] ; pop_register"@) + pop_text()
}

pub open spec fn stag_text(tag: Seq<char>) -> Seq<char> {
    line("sub rsp, 8 ; push_size_tag"@) + line("mov qword [rsp], "@ + tag + " ; push_size_tag"@)
}


/// `idx2addr`'s walk back over `steps` items: line `k` names `steps - k`.
pub open spec fn jump_lines(r: Seq<char>, steps: nat, k: nat) -> Seq<char>
    decreases k,
{
    if k == 0 {
        Seq::empty()
    } else {
        jump_lines(r, steps, (k - 1) as nat) + line(
            "add "@ + r + ", ["@ + r + "] ; idx2addr ("@ + dec((steps - k) as nat) + ")"@,
        )
    }
}

/// `idx2addr`'s descent into nested items along the first `k` path steps.
pub open spec fn path_lines(r: Seq<char>, path: Seq<u16>, k: nat) -> Seq<char>
    decreases k,
{
    if k == 0 || k > path.len() {
        Seq::empty()
    } else {
        path_lines(r, path, (k - 1) as nat) + line("add "@ + r + ", 8 ; idx2addr"@) + jump_lines(
            r,
            path[k - 1] as nat,
            path[k - 1] as nat,
        )
    }
}

/// What `idx2addr` writes to put the address of item `item` (then `path`)
/// into register `r` while `sp` items are on the stack.
pub open spec fn idx2addr_text(r: Seq<char>, item: u16, path: Seq<u16>, sp: u16) -> Seq<char> {
    let steps = (sp - item - 1) as nat;
    line("mov "@ + r + ", rsp ; idx2addr ("@ + valid_index_debug(item, path) + ")"@) + jump_lines(
        r,
        steps,
        steps,
    ) + path_lines(r, path, path.len())
}

/// The index names a live item.
pub open spec fn addressable(idx: Option<(u16, Seq<u16>)>, sp: u16) -> bool {
    idx is Some && idx->Some_0.0 < sp
}

pub open spec fn push_copy_addr_text(u: nat) -> Seq<char> {
    let ret = local_name("push_return"@, u);
    let body = local_name("push_body"@, u);
    inc_text() + line("mov rbx, [rsi] ; push_copy (rbx=size)"@) + line("sub rsp, rbx ; push_copy (rsp-=size)"@)
        + line("mov rdi, rsp ; push_copy (rdi=dest)"@) + label(body) + line("cmp rbx, 0"@) + line(
        "je "@ + ret,
    ) + line("mov cl, [rsi] ; push_copy (*rdi = *rsi)"@) + line("mov [rdi], cl"@) + line(
        "add rsi, 1 ; push_copy (rdi,rsi+=1)"@,
    ) + line("add rdi, 1"@) + line("sub rbx, 1 ; push_copy (size-=1)"@) + line("jmp "@ + body) + label(ret)
}

pub open spec fn copy_addr_text(u: nat) -> Seq<char> {
    let ret = local_name("copy_return"@, u);
    line("lea rax, ["@ + ret + "]"@) + line("jmp copy_addr"@) + label(ret)
}

#[verifier::opaque]
pub open spec fn copy_raw_text(u: nat) -> Seq<char> {
    let ret = local_name("copy_return"@, u);
    let body = local_name("copy_body"@, u);
    line("mov rbx, [rsi] ; copy (size=*rsi)"@) + label(body) + line("cmp rbx, 0"@) + line("je "@ + ret) + line(
        "mov cl, [rsi]"@,
    ) + line("mov [rdi], cl"@) + line("add rsi, 1"@) + line("add rdi, 1"@) + line("sub rbx, 1"@) + line(
        "jmp "@ + body,
    ) + label(ret)
}

#[verifier::opaque]
pub open spec fn grow_text(u: nat) -> Seq<char> {
    let ret = local_name("grow_return"@, u);
    let body = local_name("grow_body"@, u);
    line("mov rsi, rsp ; grow"@) + line("sub rsp, rdx ; grow"@) + line("mov rdi, rsp ; grow"@) + label(body)
        + line("cmp rsi, rbx ; grow"@) + line("je "@ + ret + " ; grow"@) + line("mov cl, [rsi] ; grow"@)
        + line("mov [rdi], cl ; grow"@) + line("add rsi, 1 ; grow"@) + line("add rdi, 1 ; grow"@) + line(
        "jmp "@ + body + " ; grow"@,
    ) + label(ret) + line("mov rcx, [rbx] ; grow (set size)"@) + line("add rcx, rdx ; grow"@) + line(
        "sub rbx, rdx ; grow"@,
    ) + line("mov [rbx], rcx ; grow"@)
}

#[verifier::opaque]
pub open spec fn shrink_text(u: nat) -> Seq<char> {
    let ret = local_name("shrink_return"@, u);
    let body = local_name("shrink_body"@, u);
    line("mov rcx, [rbx] ; shrink"@) + line("mov rsi, rbx ; shrink"@) + line("add rbx, rdx ; shrink"@) + line(
        "sub rcx, rdx ; shrink"@,
    ) + line("mov [rbx], rcx ; shrink"@) + line("mov rdi, rbx ; shrink"@) + label(body) + line(
        "cmp rsi, rsp ; shrink"@,
    ) + line("je "@ + ret + " ; shrink"@) + line("sub rsi, 1 ; shrink"@) + line("sub rdi, 1 ; shrink"@)
        + line("mov cl, [rsi] ; shrink"@) + line("mov [rdi], cl ; shrink"@) + line(
        "jmp "@ + body + " ; shrink"@,
    ) + label(ret) + line("add rsp, rdx ; shrink"@)
}

/// What `resize_impl` writes; it uses six labels from `u` on.
#[verifier::opaque]
pub open spec fn resize_text(u: nat) -> Seq<char> {
    let ret = local_name("resize_return"@, u);
    let negative = local_name("resize_negative"@, u);
    line("sub rdx, [rbx] ; resize"@) + line("js "@ + negative + " ; resize"@) + grow_text(u) + line(
        "jmp "@ + ret + " ; resize"@,
    ) + label(negative) + line("neg rdx ; resize"@) + shrink_text(u + 3) + label(ret)
}

/// What `copy_addr_impl` writes; it uses eight labels from `u` on.
pub open spec fn copy_addr_impl_text(u: nat, sp: nat) -> Seq<char> {
    push_register_text("rsi"@, RegisterSize::S64) + push_register_text("rdi"@, RegisterSize::S64) + line(
        "mov rbx, rdi"@,
    ) + line("mov rdx, [rsi]"@) + resize_text(u) + pop_register_text("rdi"@) + pop_register_text("rsi"@)
        + line("sub rbx, rdi"@) + line("add rsi, rbx"@) + line("add rdi, rbx"@) + copy_raw_text(u + 6)
}

pub open spec fn ref2addr_text(u: nat) -> Seq<char> {
    let ret = local_name("ref2addr_return"@, u);
    line("lea rax, ["@ + ret + "]"@) + line("jmp ref2addr"@) + label(ret)
}

#[verifier::opaque]
pub open spec fn ref_jump_back_text(ptr: Seq<char>, count: Seq<char>, u: nat) -> Seq<char> {
    let ret = local_name("ref2addr_jump_back_return"@, u);
    let body = local_name("ref2addr_jump_back_body"@, u);
    label(body) + line("cmp "@ + count + ", 0 ; ref2addr_jump_back"@) + line(
        "je "@ + ret + " ; ref2addr_jump_back"@,
    ) + line("add "@ + ptr + ", ["@ + ptr + "] ; ref2addr_jump_back"@) + line(
        "sub "@ + count + ", 1 ; ref2addr_jump_back"@,
    ) + line("jmp "@ + body + " ; ref2addr_jump_back"@) + label(ret)
}

/// What `ref2addr_impl` writes; it uses six labels from `u` on.
pub open spec fn ref2addr_impl_text(u: nat) -> Seq<char> {
    let ret = local_name("ref2addr_return"@, u + 2);
    let body = local_name("ref2addr_body"@, u + 2);
    line("mov rcx, rbx"@) + line("add rcx, [rcx]"@) + line("add rbx, 8"@) + line("mov dx, bp"@) + line(
        "sub dx, [rbx]"@,
    ) + line("mov rsi, rsp"@) + ref_jump_back_text("rsi"@, "dx"@, u) + label(body) + line("add rbx, 2"@)
        + line("cmp rbx, rcx"@) + line("je "@ + ret) + line("add rsi, 8"@) + line("mov dx, [rbx]"@)
        + ref_jump_back_text("rsi"@, "dx"@, u + 3) + line("jmp "@ + body) + label(ret)
}

/// The `mov word` lines of `push_idx2ref` for the first `k` path steps.
pub open spec fn ref_path_lines(path: Seq<u16>, k: nat) -> Seq<char>
    decreases k,
{
    if k == 0 || k > path.len() {
        Seq::empty()
    } else {
        ref_path_lines(path, (k - 1) as nat) + line(
            "mov word [rsp+"@ + dec((10 + 2 * (k - 1)) as nat) + "], "@ + dec(path[k - 1] as nat),
        )
    }
}

/// What `push_idx2ref` writes before the path lines.
pub open spec fn push_idx2ref_head(s: Seq<char>, item: u16, path: Seq<u16>, sp: u16) -> Seq<char> {
    push_text((2 + 2 * path.len() + 8) as nat, "ref"@) + line(
        "mov "@ + s + ", bp ; idx2ref ("@ + valid_index_debug(item, path) + ")"@,
    ) + line("sub "@ + s + ", "@ + dec((sp - item) as nat) + " ; idx2ref"@) + line("mov word [rsp+8], "@ + s)
}

/// What `push_idx2ref` writes for item `item` (then `path`) when `sp` items
/// were on the stack before the reference was pushed.
pub open spec fn push_idx2ref_text(s: Seq<char>, item: u16, path: Seq<u16>, sp: u16) -> Seq<char> {
    push_idx2ref_head(s, item, path, sp) + ref_path_lines(path, path.len())
}

/// `n` copies of a line.
pub open spec fn repeat_line(l: Seq<char>, n: nat) -> Seq<char>
    decreases n,
{
    if n == 0 {
        Seq::empty()
    } else {
        repeat_line(l, (n - 1) as nat) + line(l)
    }
}

/// The number of bookkeeping items at the bottom of a function's stack: the
/// return address, and the return value unless the function returns `void`.
pub open spec fn ret_start(return_type: TypeModel) -> u16 {
    if return_type != TypeModel::Void {
        2
    } else {
        1
    }
}

/// What `ret` writes for a function returning `return_type` while `sp`
/// items are on the stack.
pub open spec fn ret_text_at(sp: u16, return_type: TypeModel) -> Seq<char> {
    ret_text((sp - ret_start(return_type)) as nat)
}

/// What `ret` writes when `n` items lie above the bookkeeping items.
pub open spec fn ret_text(n: nat) -> Seq<char> {
    line("; return"@) + repeat_line("add rsp, [rsp] ; return (pop)"@, n) + line(
        "sub rbp, "@ + dec(n) + " ; return (dec_stack)"@,
    ) + pop_register_text("rax"@) + line("jmp rax"@)
}

/// Replaces every leftmost, non-overlapping occurrence of `pat` in `s` by
/// `to`, scanning from the left (what `str::replace` does).
pub open spec fn replaced(s: Seq<char>, pat: Seq<char>, to: Seq<char>) -> Seq<char>
    recommends
        pat.len() > 0,
    decreases s.len(),
{
    if s.len() == 0 || pat.len() == 0 {
        s
    } else if pat.len() <= s.len() && s.take(pat.len() as int) == pat {
        to + replaced(s.skip(pat.len() as int), pat, to)
    } else {
        seq![s[0]] + replaced(s.drop_first(), pat, to)
    }
}

/// How `db_cstr` writes one byte of a string: printable ASCII as itself,
/// any other byte as a numeric item between closed and reopened quotes.
pub open spec fn cstr_byte(b: u8) -> Seq<char> {
    if 32 <= b && b <= 126 {
        seq![b as char]
    } else {
        seq!['"', ',', ' '] + dec(b as nat) + seq![',', ' ', '"']
    }
}

pub open spec fn cstr_bytes(bytes: Seq<u8>) -> Seq<char>
    decreases bytes.len(),
{
    if bytes.len() == 0 {
        Seq::empty()
    } else {
        cstr_bytes(bytes.drop_last()) + cstr_byte(bytes.last())
    }
}

/// The operand of `db` for a string with these UTF-8 bytes: a quoted,
/// zero-terminated string with empty quoted pieces removed.
pub open spec fn cstr_operand(bytes: Seq<u8>) -> Seq<char> {
    replaced(seq!['"'] + cstr_bytes(bytes) + seq!['"', ',', ' ', '0'], seq![',', ' ', '"', '"'], Seq::empty())
}

/// What a two-operand instruction writes.
pub open spec fn op_text(
    operation: Seq<char>,
    size: RegisterSize,
    lhs: (u16, Seq<u16>),
    rhs: (u16, Seq<u16>),
    sp: u16,
) -> Seq<char> {
    let tag = " ; "@ + operation + "_"@ + size.spec_debug();
    idx2addr_text("rbx"@, rhs.0, rhs.1, sp) + line("mov "@ + size.spec_c() + ", [rbx+8]"@ + tag)
        + idx2addr_text("rbx"@, lhs.0, lhs.1, sp) + line("mov "@ + size.spec_b() + ", [rbx+8]"@ + tag) + line(
        operation + " "@ + size.spec_b() + ", "@ + size.spec_c() + tag,
    ) + push_register_text(size.spec_b(), size)
}

/// What a one-operand instruction with implied `a`/`d` registers writes.
pub open spec fn op_implied_text(
    operation: Seq<char>,
    size: RegisterSize,
    lhs: (u16, Seq<u16>),
    rhs: (u16, Seq<u16>),
    use_regd: bool,
    sp: u16,
) -> Seq<char> {
    let tag = " ; "@ + operation + "_"@ + size.spec_debug();
    idx2addr_text("rbx"@, rhs.0, rhs.1, sp) + line("mov "@ + size.spec_c() + ", [rbx+8]"@ + tag)
        + idx2addr_text("rbx"@, lhs.0, lhs.1, sp) + line("mov "@ + size.spec_a() + ", [rbx+8]"@ + tag) + line(
        operation + " "@ + size.spec_c() + tag,
    ) + push_register_text(if use_regd { size.spec_d() } else { size.spec_a() }, size)
}

/// What a shift instruction writes.
pub open spec fn op_bitshift_text(
    operation: Seq<char>,
    size: RegisterSize,
    lhs: (u16, Seq<u16>),
    rhs: (u16, Seq<u16>),
    sp: u16,
) -> Seq<char> {
    let tag = " ; "@ + operation + "_"@ + size.spec_debug();
    idx2addr_text("rbx"@, rhs.0, rhs.1, sp) + line("mov cl, [rbx+8]"@ + tag) + idx2addr_text(
        "rbx"@,
        lhs.0,
        lhs.1,
        sp,
    ) + line("mov "@ + size.spec_b() + ", [rbx+8]"@ + tag) + line(operation + " "@ + size.spec_b() + ", cl"@ + tag)
        + push_register_text(size.spec_b(), size)
}

/// The outcome of an instruction on two operands that pushes its result:
/// with both operands live and room for one item it succeeds, writes `text`
/// and pushes one item; otherwise it fails.
pub open spec fn emits_binop(
    old: Nasm,
    new: Nasm,
    r: Result<Index, Error>,
    text: Seq<char>,
    lhs: Option<(u16, Seq<u16>)>,
    rhs: Option<(u16, Seq<u16>)>,
) -> bool {
    &&& addressable(lhs, old.stack_pointer) && addressable(rhs, old.stack_pointer) && old.items_left(1) ==> {
        &&& r matches Ok(idx) && idx@ == Some((old.stack_pointer, Seq::<u16>::empty()))
        &&& new.writer@ == old.writer@ + text
        &&& new.stack_pointer == old.stack_pointer + 1
        &&& new.uniq_index == old.uniq_index
        &&& new.rodata@ == old.rodata@
    }
    &&& !(addressable(lhs, old.stack_pointer) && addressable(rhs, old.stack_pointer) && old.items_left(1))
        ==> r is Err
    &&& r is Err ==> crate::codegen::is_limit_error(r->Err_0)
    &&& r is Ok ==> new.uniq_index == old.uniq_index
    &&& grows(old, new)
    &&& new.stack_pointer >= old.stack_pointer
}

/// The register width of a number type.
pub open spec fn num_size(t: crate::ast::NumberType) -> RegisterSize {
    match t {
        crate::ast::NumberType::I8 | crate::ast::NumberType::U8 => RegisterSize::S8,
        crate::ast::NumberType::I16 | crate::ast::NumberType::U16 => RegisterSize::S16,
        crate::ast::NumberType::I32 | crate::ast::NumberType::U32 | crate::ast::NumberType::F32 => RegisterSize::S32,
        _ => RegisterSize::S64,
    }
}

pub open spec fn is_signed(t: crate::ast::NumberType) -> bool {
    t == crate::ast::NumberType::I8 || t == crate::ast::NumberType::I16 || t == crate::ast::NumberType::I32
        || t == crate::ast::NumberType::I64
}

/// A type mismatch between two number types.
pub open spec fn is_num_mismatch(e: Error, a: crate::ast::NumberType, b: crate::ast::NumberType) -> bool {
    e matches Error::TypeMismatch(x, y) && x@ == TypeModel::Number(a) && y@ == TypeModel::Number(b)
}

/// The digits of `n`, as characters.
pub fn u64_chars(n: u64) -> (r: Vec<char>)
    ensures
        r@ == dec(n as nat),
    decreases n,
{
    let d: u8 = (n % 10) as u8;
    let c = (48u8 + d) as char;
    if n < 10 {
        let mut v = Vec::new();
        v.push(c);
        v
    } else {
        let mut v = u64_chars(n / 10);
        v.push(c);
        v
    }
}

/// `replaced` over vectors of characters.
pub fn replace_chars(s: &Vec<char>, pat: &Vec<char>, to: &Vec<char>) -> (r: Vec<char>)
    requires
        pat.len() > 0,
    ensures
        r@ == replaced(s@, pat@, to@),
{
    let mut out: Vec<char> = Vec::new();
    let mut i: usize = 0;
    let plen = pat.len();
    assert(s@.skip(0) =~= s@);
    assert(out@ + replaced(s@, pat@, to@) =~= replaced(s@, pat@, to@));
    while i < s.len()
        invariant
            i <= s.len(),
            plen == pat.len(),
            plen > 0,
            out@ + replaced(s@.skip(i as int), pat@, to@) == replaced(s@, pat@, to@),
        decreases s.len() - i,
    {
        let ghost rest = s@.skip(i as int);
        let mut matches = plen <= s.len() - i;
        let mut j: usize = 0;
        while matches && j < plen
            invariant
                j <= plen,
                plen == pat.len(),
                i < s.len(),
                matches ==> plen <= s.len() - i,
                matches ==> forall|k: int| 0 <= k < j ==> s@[i + k] == pat@[k],
                !matches ==> !(plen <= rest.len() && rest.take(plen as int) == pat@),
                rest == s@.skip(i as int),
            decreases plen - j,
        {
            if s[i + j] != pat[j] {
                matches = false;
                assert(rest.take(plen as int)[j as int] != pat@[j as int]);
            }
            j = j + 1;
        }
        if matches {
            assert(rest.take(plen as int) =~= pat@);
            assert(rest.skip(plen as int) =~= s@.skip(i + plen));
            let mut k: usize = 0;
            let ghost out0 = out@;
            while k < to.len()
                invariant
                    k <= to.len(),
                    out@ == out0 + to@.take(k as int),
                decreases to.len() - k,
            {
                out.push(to[k]);
                assert(to@.take(k + 1) =~= to@.take(k as int).push(to@[k as int]));
                k = k + 1;
            }
            assert(to@.take(to.len() as int) =~= to@);
            assert(out0 + replaced(rest, pat@, to@) =~= out@ + replaced(s@.skip(i + plen), pat@, to@));
            i = i + plen;
        } else {
            assert(rest.drop_first() =~= s@.skip(i + 1));
            let ghost out0 = out@;
            out.push(s[i]);
            assert(out0 + replaced(rest, pat@, to@) =~= out@ + replaced(s@.skip(i + 1), pat@, to@));
            i = i + 1;
        }
    }
    assert(s@.skip(i as int) =~= Seq::<char>::empty());
    assert(out@ + Seq::<char>::empty() =~= out@);
    out
}

/// A string holding the given characters.
pub fn chars_to_string(v: &Vec<char>) -> (r: String)
    ensures
        r@ == v@,
{
    let mut s = String::new();
    let mut i: usize = 0;
    while i < v.len()
        invariant
            i <= v.len(),
            s@ == v@.take(i as int),
        decreases v.len() - i,
    {
        push_char(&mut s, v[i]);
        assert(v@.take(i + 1) =~= v@.take(i as int).push(v@[i as int]));
        i = i + 1;
    }
    assert(v@.take(i as int) =~= v@);
    s
}

/// Appending a piece to text that extends `w0` by `acc` extends `w0` by
/// `acc` followed by the piece.
pub proof fn lemma_extend(w0: Seq<char>, acc: Seq<char>, p: Seq<char>)
    ensures
        (w0 + acc) + p == w0 + (acc + p),
{
    vstd::seq_lib::lemma_concat_associative(w0, acc, p);
}

/// Appending seven pieces one after another appends their concatenation.
pub proof fn lemma_extend7(
    w0: Seq<char>,
    a: Seq<char>,
    b: Seq<char>,
    c: Seq<char>,
    d: Seq<char>,
    e: Seq<char>,
    f: Seq<char>,
    g: Seq<char>,
)
    ensures
        w0 + (a + b + c + d + e + f + g) == w0 + a + b + c + d + e + f + g,
{
    lemma_extend(w0, a, b);
    lemma_extend(w0, a + b, c);
    lemma_extend(w0, a + b + c, d);
    lemma_extend(w0, a + b + c + d, e);
    lemma_extend(w0, a + b + c + d + e, f);
    lemma_extend(w0, a + b + c + d + e + f, g);
}

/// Appending ten pieces one after another appends their concatenation.
pub proof fn lemma_extend10(
    w0: Seq<char>,
    a: Seq<char>,
    b: Seq<char>,
    c: Seq<char>,
    d: Seq<char>,
    e: Seq<char>,
    f: Seq<char>,
    g: Seq<char>,
    h: Seq<char>,
    i: Seq<char>,
    j: Seq<char>,
)
    ensures
        w0 + (a + b + c + d + e + f + g + h + i + j) == w0 + a + b + c + d + e + f + g + h + i + j,
{
    lemma_extend7(w0, a, b, c, d, e, f, g);
    lemma_extend(w0, a + b + c + d + e + f + g, h);
    lemma_extend(w0, a + b + c + d + e + f + g + h, i);
    lemma_extend(w0, a + b + c + d + e + f + g + h + i, j);
}

/// The item and path of an index, or a placeholder for `void`.
pub open spec fn item_of(i: Option<(u16, Seq<u16>)>) -> (u16, Seq<u16>) {
    if i is Some {
        i->Some_0
    } else {
        (0, Seq::empty())
    }
}

/// The instruction `sum` uses for a type: the float forms for floats.
pub open spec fn pick_op(t: NumberType, op: Seq<char>, opss: Seq<char>, opsd: Seq<char>) -> Seq<char> {
    if t == NumberType::F32 {
        opss
    } else if t == NumberType::F64 {
        opsd
    } else {
        op
    }
}

/// The emitter only grows: text, data and the label counter.
pub open spec fn grows(old: Nasm, new: Nasm) -> bool {
    &&& old.writer@.is_prefix_of(new.writer@)
    &&& old.rodata@.is_prefix_of(new.rodata@)
    &&& old.uniq_index <= new.uniq_index
}

pub proof fn lemma_grows_trans(a: Nasm, b: Nasm, c: Nasm)
    requires
        grows(a, b),
        grows(b, c),
    ensures
        grows(a, c),
{
    assert(a.writer@ =~= c.writer@.subrange(0, a.writer@.len() as int)) by {
        assert(a.writer@ =~= b.writer@.subrange(0, a.writer@.len() as int));
        assert(b.writer@ =~= c.writer@.subrange(0, b.writer@.len() as int));
    }
    assert(a.rodata@ =~= c.rodata@.subrange(0, a.rodata@.len() as int)) by {
        assert(a.rodata@ =~= b.rodata@.subrange(0, a.rodata@.len() as int));
        assert(b.rodata@ =~= c.rodata@.subrange(0, b.rodata@.len() as int));
    }
}

pub proof fn lemma_grows_append(a: Nasm, b: Nasm, t: Seq<char>)
    requires
        b.writer@ == a.writer@ + t,
        b.rodata@ == a.rodata@,
        a.uniq_index <= b.uniq_index,
    ensures
        grows(a, b),
{
    assert(a.writer@ =~= b.writer@.subrange(0, a.writer@.len() as int));
    assert(a.rodata@ =~= b.rodata@.subrange(0, a.rodata@.len() as int));
}

pub proof fn lemma_grows_prefix(a: Nasm, b: Nasm)
    requires
        a.writer@.is_prefix_of(b.writer@),
        a.rodata@ == b.rodata@,
        a.uniq_index <= b.uniq_index,
    ensures
        grows(a, b),
{
    assert(a.rodata@ =~= b.rodata@.subrange(0, a.rodata@.len() as int));
}

pub proof fn lemma_grows_both(a: Nasm, b: Nasm, t: Seq<char>, u: Seq<char>)
    requires
        b.writer@ == a.writer@ + t,
        b.rodata@ == a.rodata@ + u,
        a.uniq_index <= b.uniq_index,
    ensures
        grows(a, b),
{
    assert(a.writer@ =~= b.writer@.subrange(0, a.writer@.len() as int));
    assert(a.rodata@ =~= b.rodata@.subrange(0, a.rodata@.len() as int));
}

/// Growth from `a` to `b`, followed by output appended without new data.
pub proof fn lemma_grows_then(a: Nasm, b: Nasm, c: Nasm)
    requires
        grows(a, b),
        b.writer@.is_prefix_of(c.writer@),
        b.rodata@ == c.rodata@,
        b.uniq_index <= c.uniq_index,
    ensures
        grows(a, c),
{
    lemma_grows_prefix(b, c);
    lemma_grows_trans(a, b, c);
}

/// Growth keeps the text written so far.
/// What was written from `a` to `b`.
pub open spec fn written(a: Nasm, b: Nasm) -> Seq<char> {
    b.writer@.subrange(a.writer@.len() as int, b.writer@.len() as int)
}

pub proof fn lemma_written(a: Nasm, b: Nasm)
    requires
        grows(a, b),
    ensures
        b.writer@ == a.writer@ + written(a, b),
{
    assert(b.writer@ =~= a.writer@ + written(a, b));
}

pub proof fn lemma_grows_refl(a: Nasm)
    ensures
        grows(a, a),
{
    assert(a.writer@ =~= a.writer@.subrange(0, a.writer@.len() as int));
    assert(a.rodata@ =~= a.rodata@.subrange(0, a.rodata@.len() as int));
}


pub struct Nasm {
    /// The assembly text written so far.
    pub writer: String,
    /// The label counter: every label written increments it.
    pub uniq_index: usize,
    /// The number of items on the modelled stack.
    pub stack_pointer: u16,
    /// The read-only data section written so far.
    pub rodata: String,
}

impl Nasm {
    /// Everything but the assembly text is as in `other`.
    pub open spec fn same_except_writer(&self, other: &Nasm) -> bool {
        &&& self.uniq_index == other.uniq_index
        &&& self.stack_pointer == other.stack_pointer
        &&& self.rodata@ == other.rodata@
    }

    /// At least `n` more labels can be written.
    pub open spec fn labels_left(&self, n: nat) -> bool {
        self.uniq_index + n <= usize::MAX
    }

    /// The stack has room for `n` more items.
    pub open spec fn items_left(&self, n: nat) -> bool {
        self.stack_pointer + n <= u16::MAX
    }

    /// An emitter with no output and an empty stack.
    pub fn new() -> (r: Self)
        ensures
            r.writer@ == Seq::<char>::empty(),
            r.rodata@ == Seq::<char>::empty(),
            r.uniq_index == 0,
            r.stack_pointer == 0,
    {
        Nasm { writer: String::new(), uniq_index: 0, stack_pointer: 0, rodata: String::new() }
    }

    /// Appends the data section: a blank line, `section .data` and the
    /// read-only data written so far.
    pub fn finalize(&mut self) -> (r: Result<(), Error>)
        ensures
            r is Ok,
            final(self).writer@ == old(self).writer@ + "\n"@ + "section .data\n"@ + old(self).rodata@,
            final(self).same_except_writer(old(self)),
    {
        self.writer.append("\n");
        self.writer.append("section .data\n");
        self.writer.append(self.rodata.as_str());
        Ok(())
    }

    /// Writes one indented line.
    pub(crate) fn emit(&mut self, l: String)
        ensures
            final(self).writer@ == old(self).writer@ + line(l@),
            final(self).same_except_writer(old(self)),
            grows(*old(self), *final(self)),
    {
        let ghost n0 = *self;
        self.writer.append("    ");
        self.writer.append(l.as_str());
        self.writer.append("\n");
        proof {
            assert(self.writer@ =~= n0.writer@ + line(l@));
            lemma_grows_append(n0, *self, line(l@));
        }
    }

    /// Writes one indented line (for the emitter's own routines).
    fn put(&mut self, l: String)
        ensures
            final(self).writer@ == old(self).writer@ + line(l@),
            final(self).same_except_writer(old(self)),
    {
        self.writer.append("    ");
        self.writer.append(l.as_str());
        self.writer.append("\n");
    }

    /// Writes an empty line.
    pub(crate) fn newline(&mut self)
        ensures
            final(self).writer@ == old(self).writer@ + "\n"@,
            final(self).same_except_writer(old(self)),
            grows(*old(self), *final(self)),
    {
        let ghost n0 = *self;
        self.writer.append("\n");
        proof {
            lemma_grows_append(n0, *self, "\n"@);
        }
    }

    /// Writes one indented line to the read-only data section.
    fn emit_rdat(&mut self, l: String)
        ensures
            final(self).rodata@ == old(self).rodata@ + line(l@),
            final(self).writer@ == old(self).writer@,
            final(self).uniq_index == old(self).uniq_index,
            final(self).stack_pointer == old(self).stack_pointer,
    {
        self.rodata.append("    ");
        self.rodata.append(l.as_str());
        self.rodata.append("\n");
    }

    fn inc_stack(&mut self) -> (r: Result<(), Error>)
        ensures
            old(self).stack_pointer < u16::MAX ==> {
                &&& r is Ok
                &&& final(self).stack_pointer == old(self).stack_pointer + 1
                &&& final(self).writer@ == old(self).writer@ + inc_text()
                &&& final(self).uniq_index == old(self).uniq_index
                &&& final(self).rodata@ == old(self).rodata@
            },
            old(self).stack_pointer == u16::MAX ==> (r matches Err(Error::LimitExceeded) && *final(self) == *old(self)),
    {
        if self.stack_pointer == u16::MAX {
            return Err(Error::LimitExceeded);
        }
        self.stack_pointer = self.stack_pointer + 1;
        self.put(owned("add rbp, 1 ; inc_stack"));
        Ok(())
    }

    fn dec_stack(&mut self) -> (r: Result<(), Error>)
        requires
            old(self).stack_pointer > 0,
        ensures
            r is Ok,
            final(self).stack_pointer == old(self).stack_pointer - 1,
            final(self).writer@ == old(self).writer@ + dec_text(),
            final(self).uniq_index == old(self).uniq_index,
            final(self).rodata@ == old(self).rodata@,
    {
        self.stack_pointer = self.stack_pointer - 1;
        self.put(owned("sub rbp, 1 ; dec_stack"));
        Ok(())
    }

    /// Pushes an item of `size` data bytes, with a size tag of `size + 8`,
    /// and returns its index.
    pub fn push(&mut self, size: u16, name: &str) -> (r: Result<Index, Error>)
        ensures
            old(self).items_left(1) && size + 8 <= u16::MAX ==> {
                &&& r matches Ok(idx) && idx@ == Some((old(self).stack_pointer, Seq::<u16>::empty()))
                &&& final(self).stack_pointer == old(self).stack_pointer + 1
                &&& final(self).writer@ == old(self).writer@ + push_text((size + 8) as nat, name@)
                &&& final(self).uniq_index == old(self).uniq_index
                &&& final(self).rodata@ == old(self).rodata@
            },
            !(old(self).items_left(1) && size + 8 <= u16::MAX) ==> (r matches Err(Error::LimitExceeded)
                && *final(self) == *old(self)),
    {
        if size > u16::MAX - 8 || self.stack_pointer == u16::MAX {
            return Err(Error::LimitExceeded);
        }
        let idx = self.stack_pointer;
        self.inc_stack()?;
        let size = size + 8;
        self.put(cat(cat(cat(cat(owned("sub rsp, "), u64_text(size as u64).as_str()), " ; push ("), name), ")"));
        self.put(cat(cat(cat(cat(owned("mov qword [rsp], "), u64_text(size as u64).as_str()), " ; push ("), name), ")"));
        Ok(Index::new(idx))
    }

    /// Pops the top item.
    pub fn pop(&mut self) -> (r: Result<(), Error>)
        requires
            old(self).stack_pointer > 0,
        ensures
            r is Ok,
            final(self).stack_pointer == old(self).stack_pointer - 1,
            final(self).writer@ == old(self).writer@ + pop_text(),
            final(self).uniq_index == old(self).uniq_index,
            final(self).rodata@ == old(self).rodata@,
    {
        self.dec_stack()?;
        self.put(owned("add rsp, [rsp] ; pop"));
        Ok(())
    }

    /// Pushes a register onto the stack.
    pub fn push_register(&mut self, reg: &str, size: RegisterSize) -> (r: Result<Index, Error>)
        requires
            is_reg_name(reg@),
        ensures
            old(self).items_left(1) ==> {
                &&& r matches Ok(idx) && idx@ == Some((old(self).stack_pointer, Seq::<u16>::empty()))
                &&& final(self).stack_pointer == old(self).stack_pointer + 1
                &&& final(self).writer@ == old(self).writer@ + push_register_text(reg@, size)
                &&& final(self).uniq_index == old(self).uniq_index
                &&& final(self).rodata@ == old(self).rodata@
            },
            !old(self).items_left(1) ==> (r matches Err(Error::LimitExceeded) && *final(self) == *old(self)),
    {
        let idx = self.push(size.size_bytes(), "reg")?;
        self.put(cat(cat(owned("mov [rsp+8], "), reg), " ; push_register"));
        Ok(idx)
    }

    /// Pops the top item into a register.
    pub fn pop_register(&mut self, reg: &str) -> (r: Result<(), Error>)
        requires
            is_reg_name(reg@),
            old(self).stack_pointer > 0,
        ensures
            r is Ok,
            final(self).stack_pointer == old(self).stack_pointer - 1,
            final(self).writer@ == old(self).writer@ + pop_register_text(reg@),
            final(self).uniq_index == old(self).uniq_index,
            final(self).rodata@ == old(self).rodata@,
    {
        self.put(cat(cat(owned("mov "), reg), ", [rsp+8] ; pop_register"));
        self.pop()?;
        Ok(())
    }

    /// Pushes a size tag held in a register (the tag counts itself).
    pub fn push_stag_reg(&mut self, reg: &str) -> (r: Result<Index, Error>)
        ensures
            old(self).items_left(1) ==> {
                &&& r matches Ok(idx) && idx@ == Some((old(self).stack_pointer, Seq::<u16>::empty()))
                &&& final(self).stack_pointer == old(self).stack_pointer + 1
                &&& final(self).writer@ == old(self).writer@ + inc_text() + stag_text(reg@)
                &&& final(self).uniq_index == old(self).uniq_index
                &&& final(self).rodata@ == old(self).rodata@
            },
            !old(self).items_left(1) ==> (r matches Err(Error::LimitExceeded) && *final(self) == *old(self)),
    {
        let idx = self.stack_pointer;
        self.inc_stack()?;
        self.put(owned("sub rsp, 8 ; push_size_tag"));
        self.put(cat(cat(owned("mov qword [rsp], "), reg), " ; push_size_tag"));
        Ok(Index::new(idx))
    }

    /// Pushes a size tag of `size + 8` over the `size` bytes below it.
    pub fn push_stag_val(&mut self, size: u16) -> (r: Result<Index, Error>)
        ensures
            old(self).items_left(1) && size + 8 <= u16::MAX ==> {
                &&& r matches Ok(idx) && idx@ == Some((old(self).stack_pointer, Seq::<u16>::empty()))
                &&& final(self).stack_pointer == old(self).stack_pointer + 1
                &&& final(self).writer@ == old(self).writer@ + inc_text() + stag_text(dec((size + 8) as nat))
                &&& final(self).uniq_index == old(self).uniq_index
                &&& final(self).rodata@ == old(self).rodata@
            },
            !(old(self).items_left(1) && size + 8 <= u16::MAX) ==> (r matches Err(Error::LimitExceeded)
                && *final(self) == *old(self)),
    {
        if size > u16::MAX - 8 {
            return Err(Error::LimitExceeded);
        }
        let size = size + 8;
        let idx = self.stack_pointer;
        self.inc_stack()?;
        self.put(owned("sub rsp, 8 ; push_size_tag"));
        self.put(cat(cat(owned("mov qword [rsp], "), u64_text(size as u64).as_str()), " ; push_size_tag"));
        Ok(Index::new(idx))
    }

    /// Writes a size tag of `size + 8` without counting a stack item; returns
    /// the tag.
    pub fn push_stag_hidden(&mut self, size: u16) -> (r: Result<u16, Error>)
        ensures
            size + 8 <= u16::MAX ==> {
                &&& r == Ok::<u16, Error>((size + 8) as u16)
                &&& final(self).writer@ == old(self).writer@ + stag_text(dec((size + 8) as nat))
                &&& final(self).same_except_writer(old(self))
            },
            size + 8 > u16::MAX ==> (r matches Err(Error::LimitExceeded) && *final(self) == *old(self)),
    {
        if size > u16::MAX - 8 {
            return Err(Error::LimitExceeded);
        }
        let size = size + 8;
        self.put(owned("sub rsp, 8 ; push_size_tag"));
        self.put(cat(cat(owned("mov qword [rsp], "), u64_text(size as u64).as_str()), " ; push_size_tag"));
        Ok(size)
    }

    /// Writes `size` data bytes and their size tag without counting a stack
    /// item (the data lives inside an array); returns the tag.
    pub fn push_hidden(&mut self, size: u16) -> (r: Result<u16, Error>)
        ensures
            size + 8 <= u16::MAX ==> {
                &&& r == Ok::<u16, Error>((size + 8) as u16)
                &&& final(self).writer@ == old(self).writer@ + line("sub rsp, "@ + dec((size + 8) as nat) + " ; push_hidden"@)
                    + line("mov qword [rsp], "@ + dec((size + 8) as nat) + " ; push_hidden"@)
                &&& final(self).same_except_writer(old(self))
            },
            size + 8 > u16::MAX ==> (r matches Err(Error::LimitExceeded) && *final(self) == *old(self)),
    {
        if size > u16::MAX - 8 {
            return Err(Error::LimitExceeded);
        }
        let size = size + 8;
        self.put(cat(cat(owned("sub rsp, "), u64_text(size as u64).as_str()), " ; push_hidden"));
        self.put(cat(cat(owned("mov qword [rsp], "), u64_text(size as u64).as_str()), " ; push_hidden"));
        Ok(size)
    }

    /// Counts an item pushed by code outside the emitter's view.
    pub fn push_supress(&mut self) -> (r: Index)
        requires
            old(self).items_left(1),
        ensures
            r@ == Some((old(self).stack_pointer, Seq::<u16>::empty())),
            final(self).stack_pointer == old(self).stack_pointer + 1,
            final(self).writer@ == old(self).writer@,
            final(self).uniq_index == old(self).uniq_index,
            final(self).rodata@ == old(self).rodata@,
    {
        let idx = self.stack_pointer;
        self.stack_pointer = self.stack_pointer + 1;
        Index::new(idx)
    }

    /// Uncounts an item popped by code outside the emitter's view.
    pub fn pop_supress(&mut self)
        requires
            old(self).stack_pointer > 0,
        ensures
            final(self).stack_pointer == old(self).stack_pointer - 1,
            final(self).writer@ == old(self).writer@,
            final(self).uniq_index == old(self).uniq_index,
            final(self).rodata@ == old(self).rodata@,
    {
        self.stack_pointer = self.stack_pointer - 1;
    }

    /// Starts the stack of a new function, with no items.
    pub fn new_stack(&mut self) -> (r: Result<(), Error>)
        ensures
            r is Ok,
            final(self).stack_pointer == 0,
            final(self).writer@ == old(self).writer@,
            final(self).uniq_index == old(self).uniq_index,
            final(self).rodata@ == old(self).rodata@,
    {
        self.stack_pointer = 0;
        Ok(())
    }

    /// Keeps popping until the stack pointer is back at `ptr`.
    pub fn pop_until(&mut self, ptr: u16) -> (r: Result<(), Error>)
        ensures
            r is Ok,
            final(self).stack_pointer == if ptr < old(self).stack_pointer { ptr } else { old(self).stack_pointer },
            final(self).writer@ == old(self).writer@ + pops_text(
                if ptr < old(self).stack_pointer { (old(self).stack_pointer - ptr) as nat } else { 0 },
            ),
            final(self).uniq_index == old(self).uniq_index,
            final(self).rodata@ == old(self).rodata@,
    {
        let end = self.stack_pointer;
        let mut i = ptr;
        while i < end
            invariant
                ptr <= i <= end || (i == ptr && ptr >= end),
                end == old(self).stack_pointer,
                ptr < end ==> self.stack_pointer == end - (i - ptr),
                ptr >= end ==> self.stack_pointer == end,
                self.writer@ == old(self).writer@ + pops_text(if ptr < end { (i - ptr) as nat } else { 0 }),
                self.uniq_index == old(self).uniq_index,
                self.rodata@ == old(self).rodata@,
            decreases end - i,
        {
            self.pop()?;
            i = i + 1;
        }
        Ok(())
    }

    /// The escaped name of a global label.
    pub fn get_global_label_name(&self, name: &str) -> (r: String)
        ensures
            r@ == "_"@ + name@,
    {
        cat(owned("_"), name)
    }

    /// The escaped name of a local label, numbered by the label counter.
    pub fn get_local_label_name(&self, name: &str) -> (r: String)
        ensures
            r@ == local_name(name@, self.uniq_index as nat),
    {
        cat(cat(cat(owned("._"), name), "_"), u64_text(self.uniq_index as u64).as_str())
    }

    /// Writes a label as given and advances the label counter.
    pub fn raw_label(&mut self, name: &str) -> (r: Result<(), Error>)
        requires
            is_label_name(name@),
        ensures
            old(self).labels_left(1) ==> {
                &&& r is Ok
                &&& final(self).writer@ == old(self).writer@ + label(name@)
                &&& final(self).uniq_index == old(self).uniq_index + 1
                &&& final(self).stack_pointer == old(self).stack_pointer
                &&& final(self).rodata@ == old(self).rodata@
            },
            !old(self).labels_left(1) ==> (r matches Err(Error::LimitExceeded) && *final(self) == *old(self)),
    {
        if self.uniq_index == usize::MAX {
            return Err(Error::LimitExceeded);
        }
        self.writer.append(name);
        self.writer.append(":\n");
        self.uniq_index = self.uniq_index + 1;
        Ok(())
    }

    /// Writes a local label and returns its escaped name.
    pub fn local_label(&mut self, name: &str) -> (r: Result<String, Error>)
        requires
            is_label_text(name@),
        ensures
            old(self).labels_left(1) ==> {
                &&& r matches Ok(n) && n@ == local_name(name@, old(self).uniq_index as nat)
                &&& final(self).writer@ == old(self).writer@ + label(local_name(name@, old(self).uniq_index as nat))
                &&& final(self).uniq_index == old(self).uniq_index + 1
                &&& final(self).stack_pointer == old(self).stack_pointer
                &&& final(self).rodata@ == old(self).rodata@
            },
            !old(self).labels_left(1) ==> (r matches Err(Error::LimitExceeded) && *final(self) == *old(self)),
    {
        proof {
            lemma_local_name_is_label(name@, self.uniq_index as nat);
        }
        let name = self.get_local_label_name(name);
        self.raw_label(name.as_str())?;
        Ok(name)
    }

    /// Writes a global label (after a blank line) and returns its escaped
    /// name, `_name`.
    pub fn global_label(&mut self, name: &str) -> (r: Result<String, Error>)
        requires
            is_label_text(name@),
        ensures
            old(self).labels_left(1) ==> {
                &&& r matches Ok(n) && n@ == "_"@ + name@
                &&& final(self).writer@ == old(self).writer@ + "\n"@ + label("_"@ + name@)
                &&& final(self).uniq_index == old(self).uniq_index + 1
                &&& final(self).stack_pointer == old(self).stack_pointer
                &&& final(self).rodata@ == old(self).rodata@
            },
            !old(self).labels_left(1) ==> (r matches Err(Error::LimitExceeded) && *final(self) == *old(self)),
    {
        if self.uniq_index == usize::MAX {
            return Err(Error::LimitExceeded);
        }
        proof {
            lemma_global_name_is_label(name@);
        }
        self.writer.append("\n");
        let name = cat(owned("_"), name);
        self.raw_label(name.as_str())?;
        Ok(name)
    }

    fn idx2addr_jump_back(&mut self, ret_reg: &str, steps: u16) -> (r: Result<(), Error>)
        ensures
            r is Ok,
            final(self).writer@ == old(self).writer@ + jump_lines(ret_reg@, steps as nat, steps as nat),
            final(self).same_except_writer(old(self)),
    {
        let mut i: u16 = 0;
        while i < steps
            invariant
                i <= steps,
                self.writer@ == old(self).writer@ + jump_lines(ret_reg@, steps as nat, i as nat),
                self.same_except_writer(old(self)),
            decreases steps - i,
        {
            self.put(
                cat(
                    cat(cat(cat(cat(owned("add "), ret_reg), ", ["), ret_reg), "] ; idx2addr ("),
                    u64_text((steps - i - 1) as u64).as_str(),
                ).concat(")"),
            );
            i = i + 1;
        }
        Ok(())
    }

    /// Writes code that puts the address of the indexed item into `ret_reg`.
    pub fn idx2addr(&mut self, ret_reg: &str, idx: &Index) -> (r: Result<(), Error>)
        ensures
            idx@ is None ==> (r matches Err(Error::InvalidIndex) && *final(self) == *old(self)),
            idx@ is Some && !addressable(idx@, old(self).stack_pointer) ==> (r matches Err(Error::DanglingIndex)
                && *final(self) == *old(self)),
            addressable(idx@, old(self).stack_pointer) ==> {
                &&& r is Ok
                &&& final(self).writer@ == old(self).writer@ + idx2addr_text(
                    ret_reg@,
                    idx@->Some_0.0,
                    idx@->Some_0.1,
                    old(self).stack_pointer,
                )
                &&& final(self).same_except_writer(old(self))
            },
    {
        let idx = idx.valid()?;
        if idx.0 >= self.stack_pointer {
            return Err(Error::DanglingIndex);
        }
        let steps = self.stack_pointer - idx.0 - 1;
        self.put(
            cat(cat(cat(cat(owned("mov "), ret_reg), ", rsp ; idx2addr ("), idx.debug_text().as_str()), ")"),
        );
        self.idx2addr_jump_back(ret_reg, steps)?;
        let mut k: usize = 0;
        while k < idx.1.len()
            invariant
                k <= idx.1.len(),
                steps == old(self).stack_pointer - idx.0 - 1,
                self.writer@ == old(self).writer@ + line(
                    "mov "@ + ret_reg@ + ", rsp ; idx2addr ("@ + valid_index_debug(idx.0, idx.1@) + ")"@,
                ) + jump_lines(ret_reg@, steps as nat, steps as nat) + path_lines(ret_reg@, idx.1@, k as nat),
                self.same_except_writer(old(self)),
            decreases idx.1.len() - k,
        {
            self.put(cat(cat(owned("add "), ret_reg), ", 8 ; idx2addr"));
            self.idx2addr_jump_back(ret_reg, idx.1[k])?;
            k = k + 1;
        }
        Ok(())
    }

    /// Grows the item whose address is in `rbx` by `rdx` bytes; the new address is left in `rbx`.
    #[verifier::rlimit(80)]
    #[verifier::spinoff_prover]
    pub fn grow(&mut self) -> (r: Result<(), Error>)
        ensures
            old(self).labels_left(2) ==> {
                &&& r is Ok
                &&& final(self).writer@ == old(self).writer@ + grow_text(old(self).uniq_index as nat)
                &&& final(self).uniq_index == old(self).uniq_index + 2
                &&& final(self).stack_pointer == old(self).stack_pointer
                &&& final(self).rodata@ == old(self).rodata@
            },
            !(old(self).labels_left(2)) ==> (r matches Err(Error::LimitExceeded) && *final(self) == *old(self)),
    {
        if self.uniq_index > usize::MAX - 2 {
            return Err(Error::LimitExceeded);
        }
        let ghost u0 = self.uniq_index;
        reveal(grow_text);
        self.put(owned("mov rsi, rsp ; grow"));
        self.put(owned("sub rsp, rdx ; grow"));
        self.put(owned("mov rdi, rsp ; grow"));
        let ret = self.get_local_label_name("grow_return");
        proof {
            reveal_strlit("grow_body");
        }
        let body = self.local_label("grow_body")?;
        self.put(owned("cmp rsi, rbx ; grow"));
        self.put(cat(cat(owned("je "), ret.as_str()), " ; grow"));
        self.put(owned("mov cl, [rsi] ; grow"));
        self.put(owned("mov [rdi], cl ; grow"));
        self.put(owned("add rsi, 1 ; grow"));
        self.put(owned("add rdi, 1 ; grow"));
        self.put(cat(cat(owned("jmp "), body.as_str()), " ; grow"));
        proof {
            reveal_strlit("grow_return");
            lemma_local_name_is_label("grow_return"@, u0 as nat);
        }
        self.raw_label(ret.as_str())?;
        self.put(owned("mov rcx, [rbx] ; grow (set size)"));
        self.put(owned("add rcx, rdx ; grow"));
        self.put(owned("sub rbx, rdx ; grow"));
        self.put(owned("mov [rbx], rcx ; grow"));
        Ok(())
    }

    /// Shrinks the item whose address is in `rbx` by `rdx` bytes; the new address is left in `rbx`.
    #[verifier::rlimit(100)]
    #[verifier::spinoff_prover]
    pub fn shrink(&mut self) -> (r: Result<(), Error>)
        ensures
            old(self).labels_left(2) ==> {
                &&& r is Ok
                &&& final(self).writer@ == old(self).writer@ + shrink_text(old(self).uniq_index as nat)
                &&& final(self).uniq_index == old(self).uniq_index + 2
                &&& final(self).stack_pointer == old(self).stack_pointer
                &&& final(self).rodata@ == old(self).rodata@
            },
            !(old(self).labels_left(2)) ==> (r matches Err(Error::LimitExceeded) && *final(self) == *old(self)),
    {
        if self.uniq_index > usize::MAX - 2 {
            return Err(Error::LimitExceeded);
        }
        let ghost u0 = self.uniq_index;
        reveal(shrink_text);
        self.put(owned("mov rcx, [rbx] ; shrink"));
        self.put(owned("mov rsi, rbx ; shrink"));
        self.put(owned("add rbx, rdx ; shrink"));
        self.put(owned("sub rcx, rdx ; shrink"));
        self.put(owned("mov [rbx], rcx ; shrink"));
        self.put(owned("mov rdi, rbx ; shrink"));
        let ret = self.get_local_label_name("shrink_return");
        proof {
            reveal_strlit("shrink_body");
        }
        let body = self.local_label("shrink_body")?;
        self.put(owned("cmp rsi, rsp ; shrink"));
        self.put(cat(cat(owned("je "), ret.as_str()), " ; shrink"));
        self.put(owned("sub rsi, 1 ; shrink"));
        self.put(owned("sub rdi, 1 ; shrink"));
        self.put(owned("mov cl, [rsi] ; shrink"));
        self.put(owned("mov [rdi], cl ; shrink"));
        self.put(cat(cat(owned("jmp "), body.as_str()), " ; shrink"));
        proof {
            reveal_strlit("shrink_return");
            lemma_local_name_is_label("shrink_return"@, u0 as nat);
        }
        self.raw_label(ret.as_str())?;
        self.put(owned("add rsp, rdx ; shrink"));
        Ok(())
    }

    /// Sets the size of the item whose address is in `rbx` to `rdx` (tag included), growing or shrinking it; the new address is left in `rbx`.
    #[verifier::rlimit(80)]
    #[verifier::spinoff_prover]
    pub fn resize_impl(&mut self) -> (r: Result<(), Error>)
        ensures
            old(self).labels_left(6) ==> {
                &&& r is Ok
                &&& final(self).writer@ == old(self).writer@ + resize_text(old(self).uniq_index as nat)
                &&& final(self).uniq_index == old(self).uniq_index + 6
                &&& final(self).stack_pointer == old(self).stack_pointer
                &&& final(self).rodata@ == old(self).rodata@
            },
            !(old(self).labels_left(6)) ==> (r matches Err(Error::LimitExceeded) && *final(self) == *old(self)),
    {
        if self.uniq_index > usize::MAX - 6 {
            return Err(Error::LimitExceeded);
        }
        let ghost u0 = self.uniq_index;
        reveal(resize_text);
        let ret = self.get_local_label_name("resize_return");
        let negative = self.get_local_label_name("resize_negative");
        self.put(owned("sub rdx, [rbx] ; resize"));
        self.put(cat(cat(owned("js "), negative.as_str()), " ; resize"));
        self.grow()?;
        self.put(cat(cat(owned("jmp "), ret.as_str()), " ; resize"));
        proof {
            reveal_strlit("resize_negative");
            lemma_local_name_is_label("resize_negative"@, u0 as nat);
        }
        self.raw_label(negative.as_str())?;
        self.put(owned("neg rdx ; resize"));
        self.shrink()?;
        proof {
            reveal_strlit("resize_return");
            lemma_local_name_is_label("resize_return"@, u0 as nat);
        }
        self.raw_label(ret.as_str())?;
        Ok(())
    }

    /// Copies the item at `rsi` over the item at `rdi`, which must be of the same size.
    pub fn copy_raw_impl(&mut self) -> (r: Result<(), Error>)
        ensures
            old(self).labels_left(2) ==> {
                &&& r is Ok
                &&& final(self).writer@ == old(self).writer@ + copy_raw_text(old(self).uniq_index as nat)
                &&& final(self).uniq_index == old(self).uniq_index + 2
                &&& final(self).stack_pointer == old(self).stack_pointer
                &&& final(self).rodata@ == old(self).rodata@
            },
            !(old(self).labels_left(2)) ==> (r matches Err(Error::LimitExceeded) && *final(self) == *old(self)),
    {
        if self.uniq_index > usize::MAX - 2 {
            return Err(Error::LimitExceeded);
        }
        let ghost u0 = self.uniq_index;
        reveal(copy_raw_text);
        self.put(owned("mov rbx, [rsi] ; copy (size=*rsi)"));
        let ret = self.get_local_label_name("copy_return");
        proof {
            reveal_strlit("copy_body");
        }
        let body = self.local_label("copy_body")?;
        self.put(owned("cmp rbx, 0"));
        self.put(cat(owned("je "), ret.as_str()));
        self.put(owned("mov cl, [rsi]"));
        self.put(owned("mov [rdi], cl"));
        self.put(owned("add rsi, 1"));
        self.put(owned("add rdi, 1"));
        self.put(owned("sub rbx, 1"));
        self.put(cat(owned("jmp "), body.as_str()));
        proof {
            reveal_strlit("copy_return");
            lemma_local_name_is_label("copy_return"@, u0 as nat);
        }
        self.raw_label(ret.as_str())?;
        Ok(())
    }

    /// Calls the `copy_addr` routine: copies the item at `rsi` to `rdi`, resizing the destination to fit.
    pub fn copy_addr(&mut self) -> (r: Result<(), Error>)
        ensures
            old(self).labels_left(1) ==> {
                &&& r is Ok
                &&& final(self).writer@ == old(self).writer@ + copy_addr_text(old(self).uniq_index as nat)
                &&& final(self).uniq_index == old(self).uniq_index + 1
                &&& final(self).stack_pointer == old(self).stack_pointer
                &&& final(self).rodata@ == old(self).rodata@
            },
            !(old(self).labels_left(1)) ==> (r matches Err(Error::LimitExceeded) && *final(self) == *old(self)),
    {
        if self.uniq_index > usize::MAX - 1 {
            return Err(Error::LimitExceeded);
        }
        let ghost u0 = self.uniq_index;
        let ret = self.get_local_label_name("copy_return");
        self.put(cat(cat(owned("lea rax, ["), ret.as_str()), "]"));
        self.put(owned("jmp copy_addr"));
        proof {
            reveal_strlit("copy_return");
            lemma_local_name_is_label("copy_return"@, u0 as nat);
        }
        self.raw_label(ret.as_str())?;
        Ok(())
    }

    /// Calls the `ref2addr` routine: turns the reference at the address in `rbx` into the address of its target, in `rsi`.
    pub fn ref2addr(&mut self) -> (r: Result<(), Error>)
        ensures
            old(self).labels_left(1) ==> {
                &&& r is Ok
                &&& final(self).writer@ == old(self).writer@ + ref2addr_text(old(self).uniq_index as nat)
                &&& final(self).uniq_index == old(self).uniq_index + 1
                &&& final(self).stack_pointer == old(self).stack_pointer
                &&& final(self).rodata@ == old(self).rodata@
            },
            !(old(self).labels_left(1)) ==> (r matches Err(Error::LimitExceeded) && *final(self) == *old(self)),
    {
        if self.uniq_index > usize::MAX - 1 {
            return Err(Error::LimitExceeded);
        }
        let ghost u0 = self.uniq_index;
        let ret = self.get_local_label_name("ref2addr_return");
        self.put(cat(cat(owned("lea rax, ["), ret.as_str()), "]"));
        self.put(owned("jmp ref2addr"));
        proof {
            reveal_strlit("ref2addr_return");
            lemma_local_name_is_label("ref2addr_return"@, u0 as nat);
        }
        self.raw_label(ret.as_str())?;
        Ok(())
    }

    /// The body of the `copy_addr` routine.
    #[verifier::rlimit(80)]
    #[verifier::spinoff_prover]
    pub fn copy_addr_impl(&mut self) -> (r: Result<(), Error>)
        ensures
            old(self).labels_left(8) && old(self).items_left(2) ==> {
                &&& r is Ok
                &&& final(self).writer@ == old(self).writer@ + copy_addr_impl_text(old(self).uniq_index as nat, old(self).stack_pointer as nat)
                &&& final(self).uniq_index == old(self).uniq_index + 8
                &&& final(self).stack_pointer == old(self).stack_pointer
                &&& final(self).rodata@ == old(self).rodata@
            },
            !(old(self).labels_left(8) && old(self).items_left(2)) ==> (r matches Err(Error::LimitExceeded) && *final(self) == *old(self)),
    {
        if self.uniq_index > usize::MAX - 8 || self.stack_pointer > u16::MAX - 2 {
            return Err(Error::LimitExceeded);
        }
        let ghost u0 = self.uniq_index;
        proof {
            reveal_strlit("rsi");
            reveal_strlit("rdi");
        }
        self.push_register("rsi", RegisterSize::S64)?;
        self.push_register("rdi", RegisterSize::S64)?;
        self.put(owned("mov rbx, rdi"));
        self.put(owned("mov rdx, [rsi]"));
        self.resize_impl()?;
        self.pop_register("rdi")?;
        self.pop_register("rsi")?;
        self.put(owned("sub rbx, rdi"));
        self.put(owned("add rsi, rbx"));
        self.put(owned("add rdi, rbx"));
        self.copy_raw_impl()?;
        Ok(())
    }

    /// Writes a loop that steps `ptr` back over `count` items.
    fn ref2addr_jump_back(&mut self, ptr: &str, count: &str) -> (r: Result<(), Error>)
        ensures
            old(self).labels_left(2) ==> {
                &&& r is Ok
                &&& final(self).writer@ == old(self).writer@ + ref_jump_back_text(ptr@, count@, old(self).uniq_index as nat)
                &&& final(self).uniq_index == old(self).uniq_index + 2
                &&& final(self).stack_pointer == old(self).stack_pointer
                &&& final(self).rodata@ == old(self).rodata@
            },
            !old(self).labels_left(2) ==> (r matches Err(Error::LimitExceeded) && *final(self) == *old(self)),
    {
        if self.uniq_index > usize::MAX - 2 {
            return Err(Error::LimitExceeded);
        }
        let ghost u0 = self.uniq_index;
        reveal(ref_jump_back_text);
        let ret = self.get_local_label_name("ref2addr_jump_back_return");
        proof {
            reveal_strlit("ref2addr_jump_back_body");
        }
        let body = self.local_label("ref2addr_jump_back_body")?;
        self.put(cat(cat(owned("cmp "), count), ", 0 ; ref2addr_jump_back"));
        self.put(cat(cat(owned("je "), ret.as_str()), " ; ref2addr_jump_back"));
        self.put(cat(cat(cat(cat(owned("add "), ptr), ", ["), ptr), "] ; ref2addr_jump_back"));
        self.put(cat(cat(owned("sub "), count), ", 1 ; ref2addr_jump_back"));
        self.put(cat(cat(owned("jmp "), body.as_str()), " ; ref2addr_jump_back"));
        proof {
            reveal_strlit("ref2addr_jump_back_return");
            lemma_local_name_is_label("ref2addr_jump_back_return"@, u0 as nat);
        }
        self.raw_label(ret.as_str())?;
        Ok(())
    }

    /// The body of the `ref2addr` routine.
    #[verifier::rlimit(80)]
    #[verifier::spinoff_prover]
    pub fn ref2addr_impl(&mut self) -> (r: Result<(), Error>)
        ensures
            old(self).labels_left(6) ==> {
                &&& r is Ok
                &&& final(self).writer@ == old(self).writer@ + ref2addr_impl_text(old(self).uniq_index as nat)
                &&& final(self).uniq_index == old(self).uniq_index + 6
                &&& final(self).stack_pointer == old(self).stack_pointer
                &&& final(self).rodata@ == old(self).rodata@
            },
            !old(self).labels_left(6) ==> (r matches Err(Error::LimitExceeded) && *final(self) == *old(self)),
    {
        if self.uniq_index > usize::MAX - 6 {
            return Err(Error::LimitExceeded);
        }
        let ghost u0 = self.uniq_index;
        self.put(owned("mov rcx, rbx"));
        self.put(owned("add rcx, [rcx]"));
        self.put(owned("add rbx, 8"));
        self.put(owned("mov dx, bp"));
        self.put(owned("sub dx, [rbx]"));
        self.put(owned("mov rsi, rsp"));
        self.ref2addr_jump_back("rsi", "dx")?;
        let ret = self.get_local_label_name("ref2addr_return");
        proof {
            reveal_strlit("ref2addr_body");
        }
        let body = self.local_label("ref2addr_body")?;
        self.put(owned("add rbx, 2"));
        self.put(owned("cmp rbx, rcx"));
        self.put(cat(owned("je "), ret.as_str()));
        self.put(owned("add rsi, 8"));
        self.put(owned("mov dx, [rbx]"));
        self.ref2addr_jump_back("rsi", "dx")?;
        self.put(cat(owned("jmp "), body.as_str()));
        proof {
            reveal_strlit("ref2addr_return");
            lemma_local_name_is_label("ref2addr_return"@, (u0 + 2) as nat);
        }
        self.raw_label(ret.as_str())?;
        Ok(())
    }

    /// Pushes a copy of the item whose address is in `rsi`.
    #[verifier::rlimit(80)]
    #[verifier::spinoff_prover]
    pub fn push_copy_addr(&mut self) -> (r: Result<Index, Error>)
        ensures
            old(self).labels_left(2) && old(self).items_left(1) ==> {
                &&& r matches Ok(idx) && idx@ == Some((old(self).stack_pointer, Seq::<u16>::empty()))
                &&& final(self).writer@ == old(self).writer@ + push_copy_addr_text(old(self).uniq_index as nat)
                &&& final(self).uniq_index == old(self).uniq_index + 2
                &&& final(self).stack_pointer == old(self).stack_pointer + 1
                &&& final(self).rodata@ == old(self).rodata@
            },
            !(old(self).labels_left(2) && old(self).items_left(1)) ==> (r matches Err(Error::LimitExceeded)
                && *final(self) == *old(self)),
    {
        if self.uniq_index > usize::MAX - 2 || self.stack_pointer == u16::MAX {
            return Err(Error::LimitExceeded);
        }
        let ghost u0 = self.uniq_index;
        let idx = self.stack_pointer;
        self.inc_stack()?;
        self.put(owned("mov rbx, [rsi] ; push_copy (rbx=size)"));
        self.put(owned("sub rsp, rbx ; push_copy (rsp-=size)"));
        self.put(owned("mov rdi, rsp ; push_copy (rdi=dest)"));
        let ret = self.get_local_label_name("push_return");
        proof {
            reveal_strlit("push_body");
        }
        let body = self.local_label("push_body")?;
        self.put(owned("cmp rbx, 0"));
        self.put(cat(owned("je "), ret.as_str()));
        self.put(owned("mov cl, [rsi] ; push_copy (*rdi = *rsi)"));
        self.put(owned("mov [rdi], cl"));
        self.put(owned("add rsi, 1 ; push_copy (rdi,rsi+=1)"));
        self.put(owned("add rdi, 1"));
        self.put(owned("sub rbx, 1 ; push_copy (size-=1)"));
        self.put(cat(owned("jmp "), body.as_str()));
        proof {
            reveal_strlit("push_return");
            lemma_local_name_is_label("push_return"@, u0 as nat);
        }
        self.raw_label(ret.as_str())?;
        Ok(Index::new(idx))
    }

    /// Pushes a copy of the indexed item.
    pub fn push_copy(&mut self, idx: &Index) -> (r: Result<Index, Error>)
        ensures
            idx@ is None ==> (r matches Err(Error::InvalidIndex) && *final(self) == *old(self)),
            idx@ is Some && !addressable(idx@, old(self).stack_pointer) ==> (r matches Err(Error::DanglingIndex)
                && *final(self) == *old(self)),
            addressable(idx@, old(self).stack_pointer) && old(self).labels_left(2) && old(self).items_left(1) ==> {
                &&& r matches Ok(i) && i@ == Some((old(self).stack_pointer, Seq::<u16>::empty()))
                &&& final(self).writer@ == old(self).writer@ + idx2addr_text(
                    "rsi"@,
                    idx@->Some_0.0,
                    idx@->Some_0.1,
                    old(self).stack_pointer,
                ) + push_copy_addr_text(old(self).uniq_index as nat)
                &&& final(self).uniq_index == old(self).uniq_index + 2
                &&& final(self).stack_pointer == old(self).stack_pointer + 1
                &&& final(self).rodata@ == old(self).rodata@
            },
            addressable(idx@, old(self).stack_pointer) && !(old(self).labels_left(2) && old(self).items_left(1))
                ==> r matches Err(Error::LimitExceeded),
            grows(*old(self), *final(self)),
            final(self).stack_pointer >= old(self).stack_pointer,
    {
        let ghost n0 = *self;
        proof { lemma_grows_refl(n0); }
        self.idx2addr("rsi", idx)?;
        let ghost n1 = *self;
        let r = self.push_copy_addr();
        proof {
            let a = idx2addr_text("rsi"@, idx@->Some_0.0, idx@->Some_0.1, n0.stack_pointer);
            lemma_grows_append(n0, n1, a);
            if r is Ok {
                lemma_extend(n0.writer@, a, push_copy_addr_text(n0.uniq_index as nat));
                lemma_grows_append(n0, *self, a + push_copy_addr_text(n0.uniq_index as nat));
            }
        }
        r
    }

    /// Pushes a reference to the indexed item: the item's position counted
    /// from the bottom of the runtime stack (`rbp`), then each path step.
    pub fn push_idx2ref(&mut self, idx: &Index, s: &str) -> (r: Result<Index, Error>)
        ensures
            idx@ is None ==> (r matches Err(Error::InvalidIndex) && *final(self) == *old(self)),
            idx@ is Some && idx@->Some_0.0 > old(self).stack_pointer ==> (r matches Err(Error::DanglingIndex)
                && *final(self) == *old(self)),
            idx@ is Some && idx@->Some_0.0 <= old(self).stack_pointer && (idx@->Some_0.1.len() > 32762
                || !old(self).items_left(1)) ==> r matches Err(Error::LimitExceeded),
            idx@ is Some && idx@->Some_0.0 <= old(self).stack_pointer && idx@->Some_0.1.len() <= 32762
                && old(self).items_left(1) ==> {
                &&& r matches Ok(i) && i@ == Some((old(self).stack_pointer, Seq::<u16>::empty()))
                &&& final(self).writer@ == old(self).writer@ + push_idx2ref_text(
                    s@,
                    idx@->Some_0.0,
                    idx@->Some_0.1,
                    old(self).stack_pointer,
                )
                &&& final(self).stack_pointer == old(self).stack_pointer + 1
                &&& final(self).uniq_index == old(self).uniq_index
                &&& final(self).rodata@ == old(self).rodata@
            },
            r is Err ==> *final(self) == *old(self),
    {
        let idx = idx.valid()?;
        if idx.0 > self.stack_pointer {
            return Err(Error::DanglingIndex);
        }
        if idx.1.len() > 32762 {
            return Err(Error::LimitExceeded);
        }
        let ref_idx = self.push((2 + idx.1.len() * 2) as u16, "ref")?;
        let steps = self.stack_pointer - idx.0 - 1;
        self.put(cat(cat(cat(cat(owned("mov "), s), ", bp ; idx2ref ("), idx.debug_text().as_str()), ")"));
        self.put(cat(cat(cat(cat(owned("sub "), s), ", "), u64_text(steps as u64).as_str()), " ; idx2ref"));
        self.put(cat(owned("mov word [rsp+8], "), s));
        let mut i: usize = 0;
        while i < idx.1.len()
            invariant
                i <= idx.1.len(),
                idx.1.len() <= 32762,
                self.writer@ == old(self).writer@ + push_idx2ref_head(s@, idx.0, idx.1@, old(self).stack_pointer) + ref_path_lines(idx.1@, i as nat),
                self.stack_pointer == old(self).stack_pointer + 1,
                self.uniq_index == old(self).uniq_index,
                self.rodata@ == old(self).rodata@,
            decreases idx.1.len() - i,
        {
            let off = 8 + 2 + i * 2;
            self.put(cat(cat(cat(owned("mov word [rsp+"), u64_text(off as u64).as_str()), "], "), u64_text(idx.1[i] as u64).as_str()));
            i = i + 1;
        }
        Ok(ref_idx)
    }

    /// Returns from the current function: pops every item above the
    /// bookkeeping items, then pops the return address into `rax` and jumps
    /// to it.
    pub fn ret(&mut self, return_type: &ExpressionType) -> (r: Result<(), Error>)
        requires
            old(self).stack_pointer >= ret_start(return_type@),
        ensures
            r is Ok,
            final(self).writer@ == old(self).writer@ + ret_text((old(self).stack_pointer - ret_start(return_type@)) as nat),
            final(self).stack_pointer == old(self).stack_pointer - 1,
            final(self).uniq_index == old(self).uniq_index,
            final(self).rodata@ == old(self).rodata@,
    {
        let start: u16 = if !return_type.is_void_type() {
            2
        } else {
            1
        };
        let end = self.stack_pointer;
        self.put(owned("; return"));
        let mut i = start;
        while i < end
            invariant
                start <= i <= end,
                end == old(self).stack_pointer,
                self.writer@ == old(self).writer@ + line("; return"@) + repeat_line("add rsp, [rsp] ; return (pop)"@, (i - start) as nat),
                self.same_except_writer(old(self)),
            decreases end - i,
        {
            self.put(owned("add rsp, [rsp] ; return (pop)"));
            i = i + 1;
        }
        self.put(cat(cat(owned("sub rbp, "), u64_text((end - start) as u64).as_str()), " ; return (dec_stack)"));
        proof {
            reveal_strlit("rax");
        }
        self.pop_register("rax")?;
        self.put(owned("jmp rax"));
        Ok(())
    }

    /// Adds a zero-terminated string to the data section under a fresh name
    /// and loads its address into `reg`; returns the name.
    pub fn db_cstr(&mut self, msg: &str, reg: &str) -> (r: Result<String, Error>)
        ensures
            old(self).labels_left(1) ==> {
                let name = "db_string_"@ + dec(old(self).uniq_index as nat);
                &&& r matches Ok(n) && n@ == name
                &&& final(self).rodata@ == old(self).rodata@ + line(name + ": db "@ + cstr_operand(msg.spec_bytes()))
                &&& final(self).writer@ == old(self).writer@ + line("mov "@ + reg@ + ", "@ + name)
                &&& final(self).uniq_index == old(self).uniq_index + 1
                &&& final(self).stack_pointer == old(self).stack_pointer
            },
            !old(self).labels_left(1) ==> (r matches Err(Error::LimitExceeded) && *final(self) == *old(self)),
            r is Ok ==> grows(*old(self), *final(self)),
    {
        if self.uniq_index == usize::MAX {
            return Err(Error::LimitExceeded);
        }
        let ghost n0 = *self;
        let bytes = msg.as_bytes();
        let mut ret: Vec<char> = Vec::new();
        ret.push('"');
        let mut i: usize = 0;
        while i < bytes.len()
            invariant
                i <= bytes.len(),
                bytes@ == msg.spec_bytes(),
                ret@ == seq!['"'] + cstr_bytes(bytes@.take(i as int)),
            decreases bytes.len() - i,
        {
            let ch = bytes[i];
            let ghost before = ret@;
            if ch >= 32 && ch <= 126 {
                ret.push(ch as char);
            } else {
                ret.push('"');
                ret.push(',');
                ret.push(' ');
                let digits = u64_chars(ch as u64);
                let mut k: usize = 0;
                let ghost mid = ret@;
                while k < digits.len()
                    invariant
                        k <= digits.len(),
                        ret@ == mid + digits@.take(k as int),
                    decreases digits.len() - k,
                {
                    ret.push(digits[k]);
                    assert(digits@.take(k + 1) =~= digits@.take(k as int).push(digits@[k as int]));
                    k = k + 1;
                }
                assert(digits@.take(k as int) =~= digits@);
                ret.push(',');
                ret.push(' ');
                ret.push('"');
            }
            assert(bytes@.take(i + 1).drop_last() =~= bytes@.take(i as int));
            assert(ret@ =~= before + cstr_byte(ch));
            i = i + 1;
        }
        assert(bytes@.take(i as int) =~= bytes@);
        ret.push('"');
        ret.push(',');
        ret.push(' ');
        ret.push('0');
        let mut pat: Vec<char> = Vec::new();
        pat.push(',');
        pat.push(' ');
        pat.push('"');
        pat.push('"');
        let empty: Vec<char> = Vec::new();
        assert(ret@ =~= seq!['"'] + cstr_bytes(msg.spec_bytes()) + seq!['"', ',', ' ', '0']);
        assert(pat@ =~= seq![',', ' ', '"', '"']);
        let replaced_chars = replace_chars(&ret, &pat, &empty);
        let operand = chars_to_string(&replaced_chars);
        let uniq_name = cat(owned("db_string_"), u64_text(self.uniq_index as u64).as_str());
        self.uniq_index = self.uniq_index + 1;
        self.emit_rdat(cat(cat(owned(uniq_name.as_str()), ": db "), operand.as_str()));
        self.put(cat(cat(cat(owned("mov "), reg), ", "), uniq_name.as_str()));
        proof {
            let name = "db_string_"@ + dec(n0.uniq_index as nat);
            lemma_grows_both(n0, *self, line("mov "@ + reg@ + ", "@ + name), line(name + ": db "@ + cstr_operand(msg.spec_bytes())));
        }
        Ok(uniq_name)
    }

    /// `operation regb, regc` on two operands of the given width; pushes the
    /// result.
    pub fn op(&mut self, operation: &str, size: RegisterSize, lhs: &Index, rhs: &Index) -> (r: Result<Index, Error>)
        requires
            is_reg_name(operation@),
        ensures
            emits_binop(*old(self), *final(self), r, op_text(
                operation@,
                size,
                if lhs@ is Some { lhs@->Some_0 } else { (0, Seq::empty()) },
                if rhs@ is Some { rhs@->Some_0 } else { (0, Seq::empty()) },
                old(self).stack_pointer,
            ), lhs@, rhs@),
    {
        proof {
            lemma_grows_refl(*self);
        }
        let regc = size.c();
        let regb = size.b();
        if !(self.stack_pointer < u16::MAX) {
            return Err(Error::LimitExceeded);
        }
        let tag = cat(cat(cat(owned(" ; "), operation), "_"), size.debug_name());
        let ghost w0 = self.writer@;
        let ghost sp0 = self.stack_pointer;
        let ghost n0 = *self;
        proof { lemma_grows_refl(n0); }
        self.idx2addr("rbx", rhs)?;
        let ghost acc = idx2addr_text("rbx"@, rhs@->Some_0.0, rhs@->Some_0.1, sp0);
        let l = cat(cat(cat(owned("mov "), regc), ", [rbx+8]"), tag.as_str());
        self.put(l);
        proof { lemma_extend(w0, acc, line(l@)); acc = acc + line(l@); }
        let r = self.idx2addr("rbx", lhs);
        if r.is_err() {
            proof { lemma_grows_append(n0, *self, acc); }
            return Err(r.unwrap_err());
        }
        proof {
            let p = idx2addr_text("rbx"@, lhs@->Some_0.0, lhs@->Some_0.1, sp0);
            lemma_extend(w0, acc, p);
            acc = acc + p;
        }
        let l = cat(cat(cat(owned("mov "), regb), ", [rbx+8]"), tag.as_str());
        self.put(l);
        proof { lemma_extend(w0, acc, line(l@)); acc = acc + line(l@); }
        let l = cat(cat(cat(cat(cat(owned(operation), " "), regb), ", "), regc), tag.as_str());
        self.put(l);
        proof { lemma_extend(w0, acc, line(l@)); acc = acc + line(l@); }
        let r = self.push_register(regb, size);
        proof {
            lemma_extend(w0, acc, push_register_text(regb@, size));
            if r is Ok {
                lemma_grows_append(n0, *self, acc + push_register_text(regb@, size));
            } else {
                lemma_grows_append(n0, *self, acc);
            }
        }
        r
    }

    /// `operation regc` with the left operand in the `a` register; pushes the
    /// `d` register when `use_regd` (a remainder), else the `a` register.
    pub fn op_implied_reg(
        &mut self,
        operation: &str,
        size: RegisterSize,
        lhs: &Index,
        rhs: &Index,
        use_regd: bool,
    ) -> (r: Result<Index, Error>)
        requires
            is_reg_name(operation@),
        ensures
            emits_binop(*old(self), *final(self), r, op_implied_text(
                operation@,
                size,
                if lhs@ is Some { lhs@->Some_0 } else { (0, Seq::empty()) },
                if rhs@ is Some { rhs@->Some_0 } else { (0, Seq::empty()) },
                use_regd,
                old(self).stack_pointer,
            ), lhs@, rhs@),
    {
        proof {
            lemma_grows_refl(*self);
        }
        let rega = size.a();
        let regc = size.c();
        let regd = size.d();
        if !(self.stack_pointer < u16::MAX) {
            return Err(Error::LimitExceeded);
        }
        let tag = cat(cat(cat(owned(" ; "), operation), "_"), size.debug_name());
        let ghost w0 = self.writer@;
        let ghost sp0 = self.stack_pointer;
        let ghost n0 = *self;
        proof { lemma_grows_refl(n0); }
        self.idx2addr("rbx", rhs)?;
        let ghost acc = idx2addr_text("rbx"@, rhs@->Some_0.0, rhs@->Some_0.1, sp0);
        let l = cat(cat(cat(owned("mov "), regc), ", [rbx+8]"), tag.as_str());
        self.put(l);
        proof { lemma_extend(w0, acc, line(l@)); acc = acc + line(l@); }
        let r = self.idx2addr("rbx", lhs);
        if r.is_err() {
            proof { lemma_grows_append(n0, *self, acc); }
            return Err(r.unwrap_err());
        }
        proof {
            let p = idx2addr_text("rbx"@, lhs@->Some_0.0, lhs@->Some_0.1, sp0);
            lemma_extend(w0, acc, p);
            acc = acc + p;
        }
        let l = cat(cat(cat(owned("mov "), rega), ", [rbx+8]"), tag.as_str());
        self.put(l);
        proof { lemma_extend(w0, acc, line(l@)); acc = acc + line(l@); }
        let l = cat(cat(cat(owned(operation), " "), regc), tag.as_str());
        self.put(l);
        proof { lemma_extend(w0, acc, line(l@)); acc = acc + line(l@); }
        let out = if use_regd { regd } else { rega };
        let r = self.push_register(out, size);
        proof {
            lemma_extend(w0, acc, push_register_text(out@, size));
            if r is Ok {
                lemma_grows_append(n0, *self, acc + push_register_text(out@, size));
            } else {
                lemma_grows_append(n0, *self, acc);
            }
        }
        r
    }

    /// `operation regb, cl`: shifts the left operand by the right one; pushes
    /// the result.
    pub fn op_bitshift(&mut self, operation: &str, size: RegisterSize, lhs: &Index, rhs: &Index) -> (r: Result<Index, Error>)
        requires
            is_reg_name(operation@),
        ensures
            emits_binop(*old(self), *final(self), r, op_bitshift_text(
                operation@,
                size,
                if lhs@ is Some { lhs@->Some_0 } else { (0, Seq::empty()) },
                if rhs@ is Some { rhs@->Some_0 } else { (0, Seq::empty()) },
                old(self).stack_pointer,
            ), lhs@, rhs@),
    {
        proof {
            lemma_grows_refl(*self);
        }
        let regb = size.b();
        if !(self.stack_pointer < u16::MAX) {
            return Err(Error::LimitExceeded);
        }
        let tag = cat(cat(cat(owned(" ; "), operation), "_"), size.debug_name());
        let ghost w0 = self.writer@;
        let ghost sp0 = self.stack_pointer;
        let ghost n0 = *self;
        proof { lemma_grows_refl(n0); }
        self.idx2addr("rbx", rhs)?;
        let ghost acc = idx2addr_text("rbx"@, rhs@->Some_0.0, rhs@->Some_0.1, sp0);
        let l = cat(owned("mov cl, [rbx+8]"), tag.as_str());
        self.put(l);
        proof { lemma_extend(w0, acc, line(l@)); acc = acc + line(l@); }
        let r = self.idx2addr("rbx", lhs);
        if r.is_err() {
            proof { lemma_grows_append(n0, *self, acc); }
            return Err(r.unwrap_err());
        }
        proof {
            let p = idx2addr_text("rbx"@, lhs@->Some_0.0, lhs@->Some_0.1, sp0);
            lemma_extend(w0, acc, p);
            acc = acc + p;
        }
        let l = cat(cat(cat(owned("mov "), regb), ", [rbx+8]"), tag.as_str());
        self.put(l);
        proof { lemma_extend(w0, acc, line(l@)); acc = acc + line(l@); }
        let l = cat(cat(cat(cat(owned(operation), " "), regb), ", cl"), tag.as_str());
        self.put(l);
        proof { lemma_extend(w0, acc, line(l@)); acc = acc + line(l@); }
        let r = self.push_register(regb, size);
        proof {
            lemma_extend(w0, acc, push_register_text(regb@, size));
            if r is Ok {
                lemma_grows_append(n0, *self, acc + push_register_text(regb@, size));
            } else {
                lemma_grows_append(n0, *self, acc);
            }
        }
        r
    }

    /// Adds or subtracts two numbers of one type (`op`, or `opss`/`opsd` for
    /// floats); numbers of different types are a `TypeMismatch`.
    pub fn sum(
        &mut self,
        op: &'static str,
        opss: &'static str,
        opsd: &'static str,
        lhs_type: NumberType,
        rhs_type: NumberType,
        lhs: &Index,
        rhs: &Index,
    ) -> (r: Result<Index, Error>)
        requires
            is_reg_name(op@),
            is_reg_name(opss@),
            is_reg_name(opsd@),
        ensures
            lhs_type != rhs_type ==> (r matches Err(e) && is_num_mismatch(e, lhs_type, rhs_type)
                && *final(self) == *old(self)),
            lhs_type == rhs_type ==> emits_binop(*old(self), *final(self), r, op_text(
                pick_op(lhs_type, op@, opss@, opsd@),
                num_size(lhs_type),
                item_of(lhs@),
                item_of(rhs@),
                old(self).stack_pointer,
            ), lhs@, rhs@),
    {
        if lhs_type != rhs_type {
            return Err(Error::TypeMismatch(ExpressionType::Number(lhs_type), ExpressionType::Number(rhs_type)));
        }
        match lhs_type {
            NumberType::I8 => self.op(op, RegisterSize::S8, lhs, rhs),
            NumberType::I16 => self.op(op, RegisterSize::S16, lhs, rhs),
            NumberType::I32 => self.op(op, RegisterSize::S32, lhs, rhs),
            NumberType::I64 => self.op(op, RegisterSize::S64, lhs, rhs),
            NumberType::U8 => self.op(op, RegisterSize::S8, lhs, rhs),
            NumberType::U16 => self.op(op, RegisterSize::S16, lhs, rhs),
            NumberType::U32 => self.op(op, RegisterSize::S32, lhs, rhs),
            NumberType::U64 => self.op(op, RegisterSize::S64, lhs, rhs),
            NumberType::F32 => self.op(opss, RegisterSize::S32, lhs, rhs),
            NumberType::F64 => self.op(opsd, RegisterSize::S64, lhs, rhs),
        }
    }

    /// Multiplies or divides two integers of one type (`iop` for signed
    /// types, `op` for unsigned ones), pushing the remainder instead of the
    /// quotient when `use_regd`; numbers of different types are a
    /// `TypeMismatch`.
    pub fn prod(
        &mut self,
        op: &'static str,
        iop: &'static str,
        lhs_type: NumberType,
        rhs_type: NumberType,
        lhs: &Index,
        rhs: &Index,
        use_regd: bool,
    ) -> (r: Result<Index, Error>)
        requires
            lhs_type == rhs_type && !is_signed(lhs_type) ==> is_reg_name(op@),
            lhs_type == rhs_type && is_signed(lhs_type) ==> is_reg_name(iop@),
            lhs_type == rhs_type ==> !lhs_type.is_float(),
        ensures
            lhs_type != rhs_type ==> (r matches Err(e) && is_num_mismatch(e, lhs_type, rhs_type)
                && *final(self) == *old(self)),
            lhs_type == rhs_type ==> emits_binop(*old(self), *final(self), r, op_implied_text(
                if is_signed(lhs_type) { iop@ } else { op@ },
                num_size(lhs_type),
                item_of(lhs@),
                item_of(rhs@),
                use_regd,
                old(self).stack_pointer,
            ), lhs@, rhs@),
    {
        if lhs_type != rhs_type {
            return Err(Error::TypeMismatch(ExpressionType::Number(lhs_type), ExpressionType::Number(rhs_type)));
        }
        match lhs_type {
            NumberType::I8 => self.op_implied_reg(iop, RegisterSize::S8, lhs, rhs, use_regd),
            NumberType::I16 => self.op_implied_reg(iop, RegisterSize::S16, lhs, rhs, use_regd),
            NumberType::I32 => self.op_implied_reg(iop, RegisterSize::S32, lhs, rhs, use_regd),
            NumberType::I64 => self.op_implied_reg(iop, RegisterSize::S64, lhs, rhs, use_regd),
            NumberType::U8 => self.op_implied_reg(op, RegisterSize::S8, lhs, rhs, use_regd),
            NumberType::U16 => self.op_implied_reg(op, RegisterSize::S16, lhs, rhs, use_regd),
            NumberType::U32 => self.op_implied_reg(op, RegisterSize::S32, lhs, rhs, use_regd),
            NumberType::U64 => self.op_implied_reg(op, RegisterSize::S64, lhs, rhs, use_regd),
            NumberType::F32 | NumberType::F64 => {
                proof {
                    assert(false);
                }
                Err(Error::FloatMath)
            },
        }
    }

    /// A bitwise operation on two integers of one type; numbers of different
    /// types are a `TypeMismatch`, floats a `BitwiseFloat` error.
    pub fn bitwise(
        &mut self,
        op: &'static str,
        lhs_type: NumberType,
        rhs_type: NumberType,
        lhs: &Index,
        rhs: &Index,
    ) -> (r: Result<Index, Error>)
        requires
            is_reg_name(op@),
        ensures
            lhs_type != rhs_type ==> (r matches Err(e) && is_num_mismatch(e, lhs_type, rhs_type)
                && *final(self) == *old(self)),
            lhs_type == rhs_type && lhs_type.is_float() ==> (r matches Err(Error::BitwiseFloat)
                && *final(self) == *old(self)),
            lhs_type == rhs_type && !lhs_type.is_float() ==> emits_binop(*old(self), *final(self), r, op_text(
                op@,
                num_size(lhs_type),
                item_of(lhs@),
                item_of(rhs@),
                old(self).stack_pointer,
            ), lhs@, rhs@),
    {
        if lhs_type != rhs_type {
            return Err(Error::TypeMismatch(ExpressionType::Number(lhs_type), ExpressionType::Number(rhs_type)));
        }
        match lhs_type {
            NumberType::I8 => self.op(op, RegisterSize::S8, lhs, rhs),
            NumberType::I16 => self.op(op, RegisterSize::S16, lhs, rhs),
            NumberType::I32 => self.op(op, RegisterSize::S32, lhs, rhs),
            NumberType::I64 => self.op(op, RegisterSize::S64, lhs, rhs),
            NumberType::U8 => self.op(op, RegisterSize::S8, lhs, rhs),
            NumberType::U16 => self.op(op, RegisterSize::S16, lhs, rhs),
            NumberType::U32 => self.op(op, RegisterSize::S32, lhs, rhs),
            NumberType::U64 => self.op(op, RegisterSize::S64, lhs, rhs),
            NumberType::F32 | NumberType::F64 => Err(Error::BitwiseFloat),
        }
    }

    /// Shifts an integer by a `u16` amount; any other amount type is a
    /// `BitShiftU16` error, a float operand a `BitwiseFloat` error.
    pub fn bitshift(
        &mut self,
        op: &'static str,
        lhs_type: NumberType,
        rhs_type: NumberType,
        lhs: &Index,
        rhs: &Index,
    ) -> (r: Result<Index, Error>)
        requires
            is_reg_name(op@),
        ensures
            rhs_type != NumberType::U16 ==> (r matches Err(Error::BitShiftU16) && *final(self) == *old(self)),
            rhs_type == NumberType::U16 && lhs_type.is_float() ==> (r matches Err(Error::BitwiseFloat)
                && *final(self) == *old(self)),
            rhs_type == NumberType::U16 && !lhs_type.is_float() ==> emits_binop(*old(self), *final(self), r,
                op_bitshift_text(op@, num_size(lhs_type), item_of(lhs@), item_of(rhs@), old(self).stack_pointer),
                lhs@, rhs@),
    {
        if rhs_type != NumberType::U16 {
            return Err(Error::BitShiftU16);
        }
        match lhs_type {
            NumberType::I8 => self.op_bitshift(op, RegisterSize::S8, lhs, rhs),
            NumberType::I16 => self.op_bitshift(op, RegisterSize::S16, lhs, rhs),
            NumberType::I32 => self.op_bitshift(op, RegisterSize::S32, lhs, rhs),
            NumberType::I64 => self.op_bitshift(op, RegisterSize::S64, lhs, rhs),
            NumberType::U8 => self.op_bitshift(op, RegisterSize::S8, lhs, rhs),
            NumberType::U16 => self.op_bitshift(op, RegisterSize::S16, lhs, rhs),
            NumberType::U32 => self.op_bitshift(op, RegisterSize::S32, lhs, rhs),
            NumberType::U64 => self.op_bitshift(op, RegisterSize::S64, lhs, rhs),
            NumberType::F32 | NumberType::F64 => Err(Error::BitwiseFloat),
        }
    }
}

} // verus!
