//! ELF inspection for application launch: the class, byte order and
//! machine of an executable, its program interpreter, and the `DT_NEEDED`,
//! `DT_RPATH` and `DT_RUNPATH` entries of its dynamic section. No host
//! loader is ever consulted.

use vstd::prelude::*;
use crate::bytes::{le_field, be_field, read_le, read_be, pow256, lemma_pow256_values, lemma_le_value_bound, lemma_be_value_bound};
use crate::path::{path_parts, path_parts_of, is_rooted, has_navigation, split_seq, split_acc, SLASH};
use crate::manifest::parts_have_navigation;
use crate::text::{utf8_to_string, chars_of, split_chars, decimal, push_decimal, prefixed};
use crate::catalog::{first_key, find_key};

verus! {

#[derive(Clone, Copy, Debug, PartialEq, Eq, Structural, PartialOrd, Ord, Hash)]
pub enum ElfClass {
    Class32,
    Class64,
}

#[derive(Clone, Copy, Debug, PartialEq, Eq, Structural, PartialOrd, Ord, Hash)]
pub enum ElfEndian {
    Little,
    Big,
}

#[derive(Clone, Copy, Debug, PartialEq, Eq, Structural, PartialOrd, Ord, Hash)]
pub enum ElfMachine {
    X86,
    X86_64,
    Arm,
    Aarch64,
    Riscv,
    Other(u16),
}

pub open spec fn machine_of(value: u16) -> ElfMachine {
    if value == 3 {
        ElfMachine::X86
    } else if value == 40 {
        ElfMachine::Arm
    } else if value == 62 {
        ElfMachine::X86_64
    } else if value == 183 {
        ElfMachine::Aarch64
    } else if value == 243 {
        ElfMachine::Riscv
    } else {
        ElfMachine::Other(value)
    }
}

impl ElfMachine {
    /// The machine named by an `e_machine` value.
    pub fn from_raw(value: u16) -> (res: ElfMachine)
        ensures
            res == machine_of(value),
    {
        if value == 3 {
            ElfMachine::X86
        } else if value == 40 {
            ElfMachine::Arm
        } else if value == 62 {
            ElfMachine::X86_64
        } else if value == 183 {
            ElfMachine::Aarch64
        } else if value == 243 {
            ElfMachine::Riscv
        } else {
            ElfMachine::Other(value)
        }
    }
}

#[derive(Clone, Debug, PartialEq, Eq)]
pub enum ElfError {
    TooSmall,
    InvalidMagic,
    UnsupportedClass(u8),
    UnsupportedEndian(u8),
    MalformedHeader(&'static str),
    MalformedDynamicTable(&'static str),
    MalformedStringTable,
    InvalidInterpreterPath,
    InvalidDependencyName(String),
    UnsupportedDependencyPath(String),
    DependencyNotFound(String),
    ArchitectureMismatch { expected: ElfMachine, actual: ElfMachine, path: String },
    Io(String),
}

/// The kind of an `ElfError`.
pub ghost enum ElfFault {
    TooSmall,
    InvalidMagic,
    UnsupportedClass(u8),
    UnsupportedEndian(u8),
    MalformedHeader,
    MalformedDynamicTable,
    MalformedStringTable,
    InvalidInterpreterPath,
    InvalidDependencyName,
    UnsupportedDependencyPath,
    DependencyNotFound,
    ArchitectureMismatch,
    Io,
}

pub open spec fn elf_fault_of(e: ElfError) -> ElfFault {
    match e {
        ElfError::TooSmall => ElfFault::TooSmall,
        ElfError::InvalidMagic => ElfFault::InvalidMagic,
        ElfError::UnsupportedClass(v) => ElfFault::UnsupportedClass(v),
        ElfError::UnsupportedEndian(v) => ElfFault::UnsupportedEndian(v),
        ElfError::MalformedHeader(_) => ElfFault::MalformedHeader,
        ElfError::MalformedDynamicTable(_) => ElfFault::MalformedDynamicTable,
        ElfError::MalformedStringTable => ElfFault::MalformedStringTable,
        ElfError::InvalidInterpreterPath => ElfFault::InvalidInterpreterPath,
        ElfError::InvalidDependencyName(_) => ElfFault::InvalidDependencyName,
        ElfError::UnsupportedDependencyPath(_) => ElfFault::UnsupportedDependencyPath,
        ElfError::DependencyNotFound(_) => ElfFault::DependencyNotFound,
        ElfError::ArchitectureMismatch { .. } => ElfFault::ArchitectureMismatch,
        ElfError::Io(_) => ElfFault::Io,
    }
}

/// The name a machine is written with: its conventional name, or
/// `machine(N)` for a number without one.
pub open spec fn machine_text(m: ElfMachine) -> Seq<char> {
    match m {
        ElfMachine::X86 => "x86"@,
        ElfMachine::X86_64 => "x86_64"@,
        ElfMachine::Arm => "arm"@,
        ElfMachine::Aarch64 => "aarch64"@,
        ElfMachine::Riscv => "riscv"@,
        ElfMachine::Other(v) => "machine("@ + decimal(v as nat) + ")"@,
    }
}

fn push_machine(out: &mut String, m: ElfMachine)
    ensures
        final(out)@ == old(out)@ + machine_text(m),
{
    match m {
        ElfMachine::X86 => out.append("x86"),
        ElfMachine::X86_64 => out.append("x86_64"),
        ElfMachine::Arm => out.append("arm"),
        ElfMachine::Aarch64 => out.append("aarch64"),
        ElfMachine::Riscv => out.append("riscv"),
        ElfMachine::Other(v) => {
            out.append("machine(");
            push_decimal(out, v as u64);
            out.append(")");
            assert(out@ =~= old(out)@ + machine_text(m));
        },
    }
}

/// The description of an `ElfError`.
pub open spec fn elf_error_text(e: ElfError) -> Seq<char> {
    match e {
        ElfError::TooSmall => "ELF file is too small"@,
        ElfError::InvalidMagic => "invalid ELF magic"@,
        ElfError::UnsupportedClass(v) => "unsupported ELF class: "@ + decimal(v as nat),
        ElfError::UnsupportedEndian(v) => "unsupported ELF endianness: "@ + decimal(v as nat),
        ElfError::MalformedHeader(field) => "malformed ELF header: "@ + field@,
        ElfError::MalformedDynamicTable(field) => "malformed ELF dynamic table: "@ + field@,
        ElfError::MalformedStringTable => "malformed ELF string table"@,
        ElfError::InvalidInterpreterPath => "ELF interpreter path is invalid"@,
        ElfError::InvalidDependencyName(name) => "invalid ELF dependency name: "@ + name@,
        ElfError::UnsupportedDependencyPath(name) => "unsupported ELF dependency path: "@ + name@,
        ElfError::DependencyNotFound(name) => "ELF dependency not found: "@ + name@,
        ElfError::ArchitectureMismatch { expected, actual, path } =>
            "ELF architecture mismatch at "@ + path@ + ": expected "@ + machine_text(expected)
                + ", got "@ + machine_text(actual),
        ElfError::Io(message) => "ELF I/O error: "@ + message@,
    }
}

impl ElfError {
    pub fn message(&self) -> (res: String)
        ensures
            res@ == elf_error_text(*self),
    {
        match self {
            ElfError::TooSmall => String::from_str("ELF file is too small"),
            ElfError::InvalidMagic => String::from_str("invalid ELF magic"),
            ElfError::UnsupportedClass(v) => {
                let mut s = String::from_str("unsupported ELF class: ");
                push_decimal(&mut s, *v as u64);
                s
            },
            ElfError::UnsupportedEndian(v) => {
                let mut s = String::from_str("unsupported ELF endianness: ");
                push_decimal(&mut s, *v as u64);
                s
            },
            ElfError::MalformedHeader(field) => prefixed("malformed ELF header: ", field),
            ElfError::MalformedDynamicTable(field) => prefixed("malformed ELF dynamic table: ", field),
            ElfError::MalformedStringTable => String::from_str("malformed ELF string table"),
            ElfError::InvalidInterpreterPath => String::from_str("ELF interpreter path is invalid"),
            ElfError::InvalidDependencyName(name) => prefixed("invalid ELF dependency name: ", name.as_str()),
            ElfError::UnsupportedDependencyPath(name) => prefixed("unsupported ELF dependency path: ", name.as_str()),
            ElfError::DependencyNotFound(name) => prefixed("ELF dependency not found: ", name.as_str()),
            ElfError::ArchitectureMismatch { expected, actual, path } => {
                let mut s = prefixed("ELF architecture mismatch at ", path.as_str());
                s.append(": expected ");
                push_machine(&mut s, *expected);
                s.append(", got ");
                push_machine(&mut s, *actual);
                s
            },
            ElfError::Io(message) => prefixed("ELF I/O error: ", message.as_str()),
        }
    }
}

/// What the launcher needs to know of an ELF file.
#[derive(Clone, Debug, PartialEq, Eq)]
pub struct ElfMetadata {
    class: ElfClass,
    endian: ElfEndian,
    machine: ElfMachine,
    interpreter: Option<String>,
    needed: Vec<String>,
    rpath: Vec<String>,
    runpath: Vec<String>,
}

pub ghost struct ElfView {
    pub class: ElfClass,
    pub endian: ElfEndian,
    pub machine: ElfMachine,
    pub interpreter: Option<Seq<char>>,
    pub needed: Seq<Seq<char>>,
    pub rpath: Seq<Seq<char>>,
    pub runpath: Seq<Seq<char>>,
}

fn copy_strings(v: &Vec<String>) -> (res: Vec<String>)
    ensures
        strings_view(res@) == strings_view(v@),
{
    let mut out: Vec<String> = Vec::new();
    let mut i: usize = 0;
    while i < v.len()
        invariant
            i <= v@.len(),
            out@.len() == i,
            forall|k: int| 0 <= k < i ==> #[trigger] out@[k]@ == v@[k]@,
        decreases v@.len() - i,
    {
        let ghost before = out@;
        let c = v[i].clone();
        assert(c@ == v@[i as int]@);
        out.push(c);
        i = i + 1;
    }
    assert(strings_view(out@) =~= strings_view(v@));
    out
}

pub open spec fn strings_view(v: Seq<String>) -> Seq<Seq<char>> {
    Seq::new(v.len(), |i: int| v[i]@)
}

impl View for ElfMetadata {
    type V = ElfView;

    closed spec fn view(&self) -> ElfView {
        ElfView {
            class: self.class,
            endian: self.endian,
            machine: self.machine,
            interpreter: match self.interpreter {
                Some(p) => Some(p@),
                None => None,
            },
            needed: strings_view(self.needed@),
            rpath: strings_view(self.rpath@),
            runpath: strings_view(self.runpath@),
        }
    }
}

impl ElfMetadata {
    /// Metadata with the given fields (used by resolvers and tests).
    pub fn new(class: ElfClass, endian: ElfEndian, machine: ElfMachine, interpreter: Option<String>, needed: Vec<String>, rpath: Vec<String>, runpath: Vec<String>) -> (res: ElfMetadata)
        ensures
            res@.class == class,
            res@.endian == endian,
            res@.machine == machine,
            res@.interpreter == (match interpreter {
                Some(p) => Some(p@),
                None => None::<Seq<char>>,
            }),
            res@.needed == strings_view(needed@),
            res@.rpath == strings_view(rpath@),
            res@.runpath == strings_view(runpath@),
    {
        ElfMetadata { class, endian, machine, interpreter, needed, rpath, runpath }
    }

    pub fn class(&self) -> (res: ElfClass)
        ensures
            res == self@.class,
    {
        self.class
    }

    pub fn endian(&self) -> (res: ElfEndian)
        ensures
            res == self@.endian,
    {
        self.endian
    }

    pub fn machine(&self) -> (res: ElfMachine)
        ensures
            res == self@.machine,
    {
        self.machine
    }

    /// A field-for-field copy.
    pub fn copy(&self) -> (res: ElfMetadata)
        ensures
            res@ == self@,
    {
        let interpreter = match &self.interpreter {
            Some(p) => Some(p.clone()),
            None => None,
        };
        let res = ElfMetadata {
            class: self.class,
            endian: self.endian,
            machine: self.machine,
            interpreter,
            needed: copy_strings(&self.needed),
            rpath: copy_strings(&self.rpath),
            runpath: copy_strings(&self.runpath),
        };
        assert(res@.needed =~= self@.needed);
        assert(res@.rpath =~= self@.rpath);
        assert(res@.runpath =~= self@.runpath);
        res
    }

    pub fn interpreter(&self) -> (res: Option<&str>)
        ensures
            match res {
                Some(p) => self@.interpreter == Some(p@),
                None => self@.interpreter is None,
            },
    {
        match &self.interpreter {
            Some(p) => Some(p.as_str()),
            None => None,
        }
    }

    pub fn needed(&self) -> (res: &[String])
        ensures
            strings_view(res@) == self@.needed,
    {
        self.needed.as_slice()
    }

    pub fn rpath(&self) -> (res: &[String])
        ensures
            strings_view(res@) == self@.rpath,
    {
        self.rpath.as_slice()
    }

    pub fn runpath(&self) -> (res: &[String])
        ensures
            strings_view(res@) == self@.runpath,
    {
        self.runpath.as_slice()
    }

    /// A dynamic loader is involved: there is an interpreter or a needed
    /// library.
    pub fn has_dynamic_loader(&self) -> (res: bool)
        ensures
            res == (self@.interpreter is Some || self@.needed.len() > 0),
    {
        self.interpreter.is_some() || self.needed.len() > 0
    }
}

// ---------------------------------------------------------------------------
// Header
// ---------------------------------------------------------------------------

/// An unsigned field in the file's byte order.
pub open spec fn field(b: Seq<u8>, off: int, n: int, e: ElfEndian) -> nat {
    match e {
        ElfEndian::Little => le_field(b, off, n),
        ElfEndian::Big => be_field(b, off, n),
    }
}

fn read_field(bytes: &[u8], off: usize, n: usize, e: ElfEndian) -> (res: u64)
    requires
        n <= 8,
        off + n <= bytes@.len(),
    ensures
        res as nat == field(bytes@, off as int, n as int, e),
{
    match e {
        ElfEndian::Little => read_le(bytes, off, n),
        ElfEndian::Big => read_be(bytes, off, n),
    }
}

proof fn lemma_field_bound(b: Seq<u8>, off: int, n: int, e: ElfEndian)
    requires
        0 <= off,
        0 <= n,
        off + n <= b.len(),
    ensures
        field(b, off, n, e) < pow256(n as nat),
{
    lemma_le_value_bound(b.subrange(off, off + n));
    lemma_be_value_bound(b.subrange(off, off + n));
}

pub open spec fn elf_magic() -> Seq<u8> {
    seq![0x7fu8, 0x45u8, 0x4cu8, 0x46u8]
}

/// The identification and program-header location of an ELF header.
pub ghost struct ElfHeader {
    pub class: ElfClass,
    pub endian: ElfEndian,
    pub machine: ElfMachine,
    pub phoff: nat,
    pub phentsize: nat,
    pub phnum: nat,
}

pub open spec fn header_of(b: Seq<u8>) -> Result<ElfHeader, ElfFault> {
    if b.len() < 52 {
        Err(ElfFault::TooSmall)
    } else if b.subrange(0, 4) != elf_magic() {
        Err(ElfFault::InvalidMagic)
    } else if b[4] != 1 && b[4] != 2 {
        Err(ElfFault::UnsupportedClass(b[4]))
    } else if b[5] != 1 && b[5] != 2 {
        Err(ElfFault::UnsupportedEndian(b[5]))
    } else {
        let class = if b[4] == 1 {
            ElfClass::Class32
        } else {
            ElfClass::Class64
        };
        let e = if b[5] == 1 {
            ElfEndian::Little
        } else {
            ElfEndian::Big
        };
        let machine = machine_of(field(b, 18, 2, e) as u16);
        if class == ElfClass::Class32 {
            Ok(
                ElfHeader {
                    class,
                    endian: e,
                    machine,
                    phoff: field(b, 28, 4, e),
                    phentsize: field(b, 42, 2, e),
                    phnum: field(b, 44, 2, e),
                },
            )
        } else if b.len() < 58 {
            Err(ElfFault::TooSmall)
        } else {
            Ok(
                ElfHeader {
                    class,
                    endian: e,
                    machine,
                    phoff: field(b, 32, 8, e),
                    phentsize: field(b, 54, 2, e),
                    phnum: field(b, 56, 2, e),
                },
            )
        }
    }
}


fn decode_header(bytes: &[u8]) -> (res: Result<(ElfClass, ElfEndian, ElfMachine, u64, u64, u64), ElfError>)
    ensures
        match header_of(bytes@) {
            Ok(h) => res matches Ok((c, e, m, o, s, n)) && c == h.class && e == h.endian && m
                == h.machine && o == h.phoff && s == h.phentsize && n == h.phnum,
            Err(f) => res matches Err(x) && elf_fault_of(x) == f,
        },
{
    proof {
        lemma_pow256_values();
    }
    if bytes.len() < 52 {
        return Err(ElfError::TooSmall);
    }
    if !(bytes[0] == 0x7f && bytes[1] == 0x45 && bytes[2] == 0x4c && bytes[3] == 0x46) {
        proof {
            if bytes@.subrange(0, 4) == elf_magic() {
                assert(bytes@.subrange(0, 4)[0] == bytes@[0]);
                assert(bytes@.subrange(0, 4)[1] == bytes@[1]);
                assert(bytes@.subrange(0, 4)[2] == bytes@[2]);
                assert(bytes@.subrange(0, 4)[3] == bytes@[3]);
            }
        }
        return Err(ElfError::InvalidMagic);
    }
    assert(bytes@.subrange(0, 4) =~= elf_magic());
    let class = if bytes[4] == 1 {
        ElfClass::Class32
    } else if bytes[4] == 2 {
        ElfClass::Class64
    } else {
        return Err(ElfError::UnsupportedClass(bytes[4]));
    };
    let endian = if bytes[5] == 1 {
        ElfEndian::Little
    } else if bytes[5] == 2 {
        ElfEndian::Big
    } else {
        return Err(ElfError::UnsupportedEndian(bytes[5]));
    };
    proof {
        lemma_field_bound(bytes@, 18, 2, endian);
        lemma_field_bound(bytes@, 42, 2, endian);
        lemma_field_bound(bytes@, 44, 2, endian);
    }
    let machine = ElfMachine::from_raw(read_field(bytes, 18, 2, endian) as u16);
    match class {
        ElfClass::Class32 => {
            let phoff = read_field(bytes, 28, 4, endian);
            let phentsize = read_field(bytes, 42, 2, endian);
            let phnum = read_field(bytes, 44, 2, endian);
            Ok((class, endian, machine, phoff, phentsize, phnum))
        },
        ElfClass::Class64 => {
            let phoff = read_field(bytes, 32, 8, endian);
            if bytes.len() < 58 {
                return Err(ElfError::TooSmall);
            }
            let phentsize = read_field(bytes, 54, 2, endian);
            let phnum = read_field(bytes, 56, 2, endian);
            Ok((class, endian, machine, phoff, phentsize, phnum))
        },
    }
}

// ---------------------------------------------------------------------------
// Program headers
// ---------------------------------------------------------------------------

/// What the program headers declare so far: loadable segments
/// `(vaddr, offset, filesz)`, the dynamic segment `(offset, filesz)` and the
/// interpreter path (the last one of each kind wins).
pub ghost struct PhState {
    pub segments: Seq<(nat, nat, nat)>,
    pub dynamic: Option<(nat, nat)>,
    pub interp: Option<Seq<char>>,
}

/// Index of the first zero byte (`s.len()` when there is none).
pub open spec fn first_zero(s: Seq<u8>) -> int
    decreases s.len(),
{
    if s.len() == 0 {
        0
    } else if s[0] == 0 {
        0
    } else {
        1 + first_zero(s.drop_first())
    }
}

/// The interpreter path in `raw`: the bytes before the first NUL, which must
/// be UTF-8, absolute, and free of `.` and `..` components.
pub open spec fn interp_of(raw: Seq<u8>) -> Option<Seq<char>> {
    let nul = first_zero(raw);
    if nul >= raw.len() {
        None
    } else {
        let p = raw.subrange(0, nul);
        if !vstd::utf8::valid_utf8(p) || !is_rooted(p) || has_navigation(p) {
            None
        } else {
            Some(vstd::utf8::decode_utf8(p))
        }
    }
}

/// Program header `i`: `(p_type, p_offset, p_vaddr, p_filesz)`.
pub open spec fn ph_entry(b: Seq<u8>, h: ElfHeader, i: nat) -> (nat, nat, nat, nat) {
    let base = (h.phoff + i * h.phentsize) as int;
    let e = h.endian;
    if h.class == ElfClass::Class32 {
        (field(b, base, 4, e), field(b, base + 4, 4, e), field(b, base + 8, 4, e), field(b, base + 16, 4, e))
    } else {
        (field(b, base, 4, e), field(b, base + 8, 8, e), field(b, base + 16, 8, e), field(b, base + 32, 8, e))
    }
}

pub open spec fn ph_step(b: Seq<u8>, h: ElfHeader, i: nat, st: PhState) -> Result<PhState, ElfFault> {
    let (t, off, va, sz) = ph_entry(b, h, i);
    if off + sz > b.len() {
        Err(ElfFault::MalformedHeader)
    } else if t == 1 {
        Ok(PhState { segments: st.segments.push((va, off, sz)), ..st })
    } else if t == 2 {
        Ok(PhState { dynamic: Some((off, sz)), ..st })
    } else if t == 3 {
        match interp_of(b.subrange(off as int, (off + sz) as int)) {
            None => Err(ElfFault::InvalidInterpreterPath),
            Some(p) => Ok(PhState { interp: Some(p), ..st }),
        }
    } else {
        Ok(st)
    }
}

/// The first `n` program headers, in order.
pub open spec fn ph_scan(b: Seq<u8>, h: ElfHeader, n: nat) -> Result<PhState, ElfFault>
    decreases n,
{
    if n == 0 {
        Ok(PhState { segments: Seq::empty(), dynamic: None, interp: None })
    } else {
        match ph_scan(b, h, (n - 1) as nat) {
            Err(f) => Err(f),
            Ok(st) => ph_step(b, h, (n - 1) as nat, st),
        }
    }
}

proof fn lemma_ph_scan_err(b: Seq<u8>, h: ElfHeader, i: nat, n: nat)
    requires
        i <= n,
        ph_scan(b, h, i) is Err,
    ensures
        ph_scan(b, h, n) == ph_scan(b, h, i),
    decreases n - i,
{
    if i < n {
        lemma_ph_scan_err(b, h, i, (n - 1) as nat);
    }
}

pub open spec fn segments_view(v: Seq<(u64, u64, u64)>) -> Seq<(nat, nat, nat)> {
    Seq::new(v.len(), |i: int| (v[i].0 as nat, v[i].1 as nat, v[i].2 as nat))
}

proof fn lemma_first_zero(s: Seq<u8>, i: int)
    requires
        0 <= i <= s.len(),
        forall|j: int| 0 <= j < i ==> s[j] != 0,
    ensures
        i < s.len() && s[i] == 0 ==> first_zero(s) == i,
        i == s.len() ==> first_zero(s) == s.len(),
    decreases i,
{
    if i > 0 {
        assert forall|j: int| 0 <= j < i - 1 implies s.drop_first()[j] != 0 by {
            assert(s.drop_first()[j] == s[j + 1]);
        }
        lemma_first_zero(s.drop_first(), i - 1);
    }
}

/// Index of the first zero byte of `s` (`s.len()` when none).
fn find_zero(s: &[u8]) -> (res: usize)
    ensures
        res as int == first_zero(s@),
        res <= s@.len(),
{
    let mut i: usize = 0;
    while i < s.len() && s[i] != 0
        invariant
            i <= s@.len(),
            forall|j: int| 0 <= j < i ==> s@[j] != 0,
        decreases s@.len() - i,
    {
        i = i + 1;
    }
    proof {
        lemma_first_zero(s@, i as int);
    }
    i
}

fn interpreter_path(raw: &[u8]) -> (res: Option<String>)
    ensures
        match interp_of(raw@) {
            Some(p) => res matches Some(s) && s@ == p,
            None => res is None,
        },
{
    let nul = find_zero(raw);
    if nul >= raw.len() {
        return None;
    }
    let p = &raw[0..nul];
    assert(p@ =~= raw@.subrange(0, nul as int));
    let text = match utf8_to_string(p) {
        Some(t) => t,
        None => return None,
    };
    if !(p.len() > 0 && p[0] == SLASH) {
        return None;
    }
    let parts = path_parts_of(p);
    if parts_have_navigation(&parts) {
        return None;
    }
    Some(text)
}

fn ph_entry_exec(bytes: &[u8], class: ElfClass, endian: ElfEndian, base: usize) -> (res: (u64, u64, u64, u64))
    requires
        class == ElfClass::Class32 ==> base + 32 <= bytes@.len(),
        class == ElfClass::Class64 ==> base + 56 <= bytes@.len(),
    ensures
        res.0 as nat == field(bytes@, base as int, 4, endian),
        class == ElfClass::Class32 ==> res.1 as nat == field(bytes@, base + 4, 4, endian) && res.2 as nat
            == field(bytes@, base + 8, 4, endian) && res.3 as nat == field(bytes@, base + 16, 4, endian),
        class == ElfClass::Class64 ==> res.1 as nat == field(bytes@, base + 8, 8, endian) && res.2 as nat
            == field(bytes@, base + 16, 8, endian) && res.3 as nat == field(bytes@, base + 32, 8, endian),
{
    let len = bytes.len();
    assert(base + 32 <= len);
    let t = read_field(bytes, base, 4, endian);
    match class {
        ElfClass::Class32 => (
            t,
            read_field(bytes, base + 4, 4, endian),
            read_field(bytes, base + 8, 4, endian),
            read_field(bytes, base + 16, 4, endian),
        ),
        ElfClass::Class64 => (
            t,
            read_field(bytes, base + 8, 8, endian),
            read_field(bytes, base + 16, 8, endian),
            read_field(bytes, base + 32, 8, endian),
        ),
    }
}

fn scan_program_headers(bytes: &[u8], h: Ghost<ElfHeader>, class: ElfClass, endian: ElfEndian, phoff: u64, phentsize: u64, phnum: u64) -> (res: Result<(Vec<(u64, u64, u64)>, Option<(u64, u64)>, Option<String>), ElfError>)
    requires
        h@.class == class,
        h@.endian == endian,
        h@.phoff == phoff,
        h@.phentsize == phentsize,
        h@.phnum == phnum,
        phentsize < 0x1_0000,
        phnum < 0x1_0000,
        class == ElfClass::Class32 ==> phentsize >= 32,
        class == ElfClass::Class64 ==> phentsize >= 56,
        phoff + phentsize * phnum <= bytes@.len(),
    ensures
        match ph_scan(bytes@, h@, phnum as nat) {
            Ok(st) => res matches Ok((segs, dynamic, interp)) && segments_view(segs@) == st.segments
                && dynamic == (match st.dynamic {
                Some((o, s)) => Some((o as u64, s as u64)),
                None => None::<(u64, u64)>,
            }) && (match st.interp {
                Some(p) => interp matches Some(x) && x@ == p,
                None => interp is None,
            }),
            Err(f) => res matches Err(e) && elf_fault_of(e) == f,
        },
{
    let len = bytes.len();
    let mut segments: Vec<(u64, u64, u64)> = Vec::new();
    let mut dynamic: Option<(u64, u64)> = None;
    let mut interp: Option<String> = None;
    let mut index: u64 = 0;
    proof {
        assert(segments_view(segments@) =~= Seq::<(nat, nat, nat)>::empty());
    }
    while index < phnum
        invariant
            len == bytes@.len(),
            h@.class == class,
            h@.endian == endian,
            h@.phoff == phoff,
            h@.phentsize == phentsize,
            h@.phnum == phnum,
            phentsize < 0x1_0000,
            phnum < 0x1_0000,
            class == ElfClass::Class32 ==> phentsize >= 32,
            class == ElfClass::Class64 ==> phentsize >= 56,
            phoff + phentsize * phnum <= bytes@.len(),
            index <= phnum,
            ph_scan(bytes@, h@, index as nat) matches Ok(st) && segments_view(segments@)
                == st.segments && dynamic == (match st.dynamic {
                Some((o, s)) => Some((o as u64, s as u64)),
                None => None::<(u64, u64)>,
            }) && (match st.interp {
                Some(p) => interp matches Some(x) && x@ == p,
                None => interp is None,
            }),
        decreases phnum - index,
    {
        proof {
            assert(phoff + index * phentsize + phentsize <= phoff + phentsize * phnum) by (nonlinear_arith)
                requires
                    index < phnum,
            ;
        }
        let base = (phoff + index * phentsize) as usize;
        let (t, offset, vaddr, filesz) = ph_entry_exec(bytes, class, endian, base);
        let ghost st = ph_scan(bytes@, h@, index as nat)->Ok_0;
        assert(ph_entry(bytes@, h@, index as nat) == (t as nat, offset as nat, vaddr as nat, filesz as nat));
        if offset > len as u64 || filesz > len as u64 - offset {
            proof {
                assert(ph_step(bytes@, h@, index as nat, st) is Err);
                lemma_ph_scan_err(bytes@, h@, (index + 1) as nat, phnum as nat);
            }
            return Err(ElfError::MalformedHeader("out of bounds"));
        }
        if t == 1 {
            let ghost before = segments_view(segments@);
            segments.push((vaddr, offset, filesz));
            proof {
                assert(segments_view(segments@) =~= before.push((vaddr as nat, offset as nat, filesz as nat)));
            }
        } else if t == 2 {
            dynamic = Some((offset, filesz));
        } else if t == 3 {
            let start = offset as usize;
            let end = (offset + filesz) as usize;
            let raw = &bytes[start..end];
            assert(raw@ =~= bytes@.subrange(offset as int, offset + filesz));
            match interpreter_path(raw) {
                Some(p) => {
                    interp = Some(p);
                },
                None => {
                    proof {
                        lemma_ph_scan_err(bytes@, h@, (index + 1) as nat, phnum as nat);
                    }
                    return Err(ElfError::InvalidInterpreterPath);
                },
            }
        }
        index = index + 1;
    }
    Ok((segments, dynamic, interp))
}


// ---------------------------------------------------------------------------
// Dynamic section
// ---------------------------------------------------------------------------

/// What the dynamic entries read so far declare: the `DT_NEEDED` string
/// offsets in order, and the last `DT_STRTAB`, `DT_STRSZ`, `DT_RPATH` and
/// `DT_RUNPATH` values; `done` once a `DT_NULL` entry ends the table.
pub ghost struct DynState {
    pub needed: Seq<nat>,
    pub strtab: Option<nat>,
    pub strsz: Option<nat>,
    pub rpath: Option<nat>,
    pub runpath: Option<nat>,
    pub done: bool,
}

pub open spec fn dyn_entry_size(c: ElfClass) -> nat {
    if c == ElfClass::Class32 {
        8
    } else {
        16
    }
}

/// Dynamic entry `i` of the table at `off`: `(d_tag, d_val)`, the tag read
/// as an unsigned pattern.
pub open spec fn dyn_entry(b: Seq<u8>, h: ElfHeader, off: nat, i: nat) -> (nat, nat) {
    let base = (off + i * dyn_entry_size(h.class)) as int;
    if h.class == ElfClass::Class32 {
        (field(b, base, 4, h.endian), field(b, base + 4, 4, h.endian))
    } else {
        (field(b, base, 8, h.endian), field(b, base + 8, 8, h.endian))
    }
}

pub open spec fn dyn_step(st: DynState, tag: nat, value: nat) -> DynState {
    if st.done {
        st
    } else if tag == 0 {
        DynState { done: true, ..st }
    } else if tag == 1 {
        DynState { needed: st.needed.push(value), ..st }
    } else if tag == 5 {
        DynState { strtab: Some(value), ..st }
    } else if tag == 10 {
        DynState { strsz: Some(value), ..st }
    } else if tag == 15 {
        DynState { rpath: Some(value), ..st }
    } else if tag == 29 {
        DynState { runpath: Some(value), ..st }
    } else {
        st
    }
}

/// The first `n` entries of the dynamic table at `off`.
pub open spec fn dyn_scan(b: Seq<u8>, h: ElfHeader, off: nat, n: nat) -> DynState
    decreases n,
{
    if n == 0 {
        DynState { needed: Seq::empty(), strtab: None, strsz: None, rpath: None, runpath: None, done: false }
    } else {
        let (tag, value) = dyn_entry(b, h, off, (n - 1) as nat);
        dyn_step(dyn_scan(b, h, off, (n - 1) as nat), tag, value)
    }
}

pub open spec fn nat_seq(v: Seq<u64>) -> Seq<nat> {
    Seq::new(v.len(), |i: int| v[i] as nat)
}

pub open spec fn opt_nat(o: Option<u64>) -> Option<nat> {
    match o {
        Some(v) => Some(v as nat),
        None => None,
    }
}

fn scan_dynamic(bytes: &[u8], h: Ghost<ElfHeader>, class: ElfClass, endian: ElfEndian, offset: u64, count: u64) -> (res: (Vec<u64>, Option<u64>, Option<u64>, Option<u64>, Option<u64>))
    requires
        h@.class == class,
        h@.endian == endian,
        offset + count * dyn_entry_size(class) <= bytes@.len(),
    ensures
        ({
            let d = dyn_scan(bytes@, h@, offset as nat, count as nat);
            nat_seq(res.0@) == d.needed && opt_nat(res.1) == d.strtab && opt_nat(res.2) == d.strsz
                && opt_nat(res.3) == d.rpath && opt_nat(res.4) == d.runpath
        }),
{
    let len = bytes.len();
    let es: u64 = match class {
        ElfClass::Class32 => 8,
        ElfClass::Class64 => 16,
    };
    let mut needed: Vec<u64> = Vec::new();
    let mut strtab: Option<u64> = None;
    let mut strsz: Option<u64> = None;
    let mut rpath: Option<u64> = None;
    let mut runpath: Option<u64> = None;
    let mut done = false;
    let mut index: u64 = 0;
    proof {
        assert(nat_seq(needed@) =~= Seq::<nat>::empty());
    }
    while index < count
        invariant
            len == bytes@.len(),
            h@.class == class,
            h@.endian == endian,
            es == dyn_entry_size(class),
            offset + count * es <= bytes@.len(),
            index <= count,
            ({
                let d = dyn_scan(bytes@, h@, offset as nat, index as nat);
                nat_seq(needed@) == d.needed && opt_nat(strtab) == d.strtab && opt_nat(strsz) == d.strsz
                    && opt_nat(rpath) == d.rpath && opt_nat(runpath) == d.runpath && done == d.done
            }),
        decreases count - index,
    {
        proof {
            assert(offset + index * es + es <= offset + count * es) by (nonlinear_arith)
                requires
                    index < count,
            ;
        }
        let base = (offset + index * es) as usize;
        let (tag, value) = match class {
            ElfClass::Class32 => (read_field(bytes, base, 4, endian), read_field(bytes, base + 4, 4, endian)),
            ElfClass::Class64 => (read_field(bytes, base, 8, endian), read_field(bytes, base + 8, 8, endian)),
        };
        assert(dyn_entry(bytes@, h@, offset as nat, index as nat) == (tag as nat, value as nat));
        if !done {
            if tag == 0 {
                done = true;
            } else if tag == 1 {
                let ghost before = nat_seq(needed@);
                needed.push(value);
                assert(nat_seq(needed@) =~= before.push(value as nat));
            } else if tag == 5 {
                strtab = Some(value);
            } else if tag == 10 {
                strsz = Some(value);
            } else if tag == 15 {
                rpath = Some(value);
            } else if tag == 29 {
                runpath = Some(value);
            }
        }
        index = index + 1;
    }
    (needed, strtab, strsz, rpath, runpath)
}

/// File offset of the virtual range `[vaddr, vaddr + size)` through the
/// first loadable segment that contains it.
pub open spec fn vaddr_offset(segs: Seq<(nat, nat, nat)>, vaddr: nat, size: nat) -> Result<nat, ElfFault>
    decreases segs.len(),
{
    if segs.len() == 0 {
        Err(ElfFault::MalformedStringTable)
    } else {
        let (va, off, sz) = segs[0];
        if va + sz > u64::MAX {
            Err(ElfFault::MalformedDynamicTable)
        } else if vaddr + size > u64::MAX {
            Err(ElfFault::MalformedStringTable)
        } else if vaddr >= va && vaddr + size <= va + sz {
            if off + (vaddr - va) > u64::MAX {
                Err(ElfFault::MalformedStringTable)
            } else {
                Ok((off + (vaddr - va)) as nat)
            }
        } else {
            vaddr_offset(segs.drop_first(), vaddr, size)
        }
    }
}

fn vaddr_to_offset(segments: &Vec<(u64, u64, u64)>, vaddr: u64, size: u64) -> (res: Result<u64, ElfError>)
    ensures
        match vaddr_offset(segments_view(segments@), vaddr as nat, size as nat) {
            Ok(o) => res matches Ok(x) && x as nat == o,
            Err(f) => res matches Err(e) && elf_fault_of(e) == f,
        },
{
    let ghost sv = segments_view(segments@);
    let mut i: usize = 0;
    assert(sv.subrange(0, sv.len() as int) =~= sv);
    while i < segments.len()
        invariant
            sv == segments_view(segments@),
            i <= sv.len(),
            vaddr_offset(sv, vaddr as nat, size as nat) == vaddr_offset(sv.subrange(i as int, sv.len() as int), vaddr as nat, size as nat),
        decreases sv.len() - i,
    {
        let (va, off, sz) = segments[i];
        let ghost rest = sv.subrange(i as int, sv.len() as int);
        assert(rest[0] == (va as nat, off as nat, sz as nat));
        assert(rest.drop_first() =~= sv.subrange(i + 1, sv.len() as int));
        if va > u64::MAX - sz {
            return Err(ElfError::MalformedDynamicTable("segment overflow"));
        }
        let end = va + sz;
        if vaddr > u64::MAX - size {
            return Err(ElfError::MalformedStringTable);
        }
        let requested_end = vaddr + size;
        if vaddr >= va && requested_end <= end {
            if off > u64::MAX - (vaddr - va) {
                return Err(ElfError::MalformedStringTable);
            }
            return Ok(off + (vaddr - va));
        }
        i = i + 1;
    }
    assert(sv.subrange(i as int, sv.len() as int).len() == 0);
    Err(ElfError::MalformedStringTable)
}

/// The NUL-terminated UTF-8 string at `off` of a string table.
pub open spec fn table_string(t: Seq<u8>, off: nat) -> Option<Seq<char>> {
    if off >= t.len() {
        None
    } else {
        let rest = t.subrange(off as int, t.len() as int);
        let nul = first_zero(rest);
        if nul >= rest.len() || !vstd::utf8::valid_utf8(rest.subrange(0, nul)) {
            None
        } else {
            Some(vstd::utf8::decode_utf8(rest.subrange(0, nul)))
        }
    }
}

fn read_dyn_string(table: &[u8], offset: u64) -> (res: Result<String, ElfError>)
    ensures
        match table_string(table@, offset as nat) {
            Some(s) => res matches Ok(x) && x@ == s,
            None => res matches Err(e) && e is MalformedStringTable,
        },
{
    if offset >= table.len() as u64 {
        return Err(ElfError::MalformedStringTable);
    }
    let start = offset as usize;
    let rest = &table[start..table.len()];
    assert(rest@ =~= table@.subrange(offset as int, table@.len() as int));
    let nul = find_zero(rest);
    if nul >= rest.len() {
        return Err(ElfError::MalformedStringTable);
    }
    let piece = &rest[0..nul];
    assert(piece@ =~= rest@.subrange(0, nul as int));
    match utf8_to_string(piece) {
        Some(s) => Ok(s),
        None => Err(ElfError::MalformedStringTable),
    }
}

pub open spec fn chars_nonempty() -> spec_fn(Seq<char>) -> bool {
    |p: Seq<char>| p.len() > 0
}

/// A search path: its non-empty `:`-separated entries.
pub open spec fn search_path(s: Seq<char>) -> Seq<Seq<char>> {
    split_seq(s, ':').filter(chars_nonempty())
}

fn split_search_path(text: &str) -> (res: Vec<String>)
    ensures
        strings_view(res@) == search_path(text@),
{
    let chars = chars_of(text);
    let pieces = split_chars(chars.as_slice(), ':');
    let ghost pv = pieces.deep_view();
    let mut out: Vec<String> = Vec::new();
    let mut i: usize = 0;
    proof {
        reveal(Seq::filter);
        assert(strings_view(out@) =~= pv.take(0).filter(chars_nonempty()));
    }
    while i < pieces.len()
        invariant
            pv == pieces.deep_view(),
            pv == split_seq(text@, ':'),
            i <= pv.len(),
            strings_view(out@) == pv.take(i as int).filter(chars_nonempty()),
        decreases pv.len() - i,
    {
        proof {
            reveal(Seq::filter);
            assert(pv.take(i + 1).drop_last() =~= pv.take(i as int));
            assert(pv.take(i + 1).last() == pv[i as int]);
        }
        assert(pieces[i as int]@ == pv[i as int]);
        if pieces[i].len() > 0 {
            let ghost before = strings_view(out@);
            let piece = crate::text::string_from_chars(pieces[i].as_slice(), 0, pieces[i].len());
            assert(pieces[i as int]@.subrange(0, pieces[i as int]@.len() as int) =~= pieces[i as int]@);
            out.push(piece);
            proof {
                assert(strings_view(out@) =~= before.push(pv[i as int]));
                assert((chars_nonempty())(pv[i as int]));
            }
        } else {
            proof {
                assert(!(chars_nonempty())(pv[i as int]));
            }
        }
        i = i + 1;
    }
    proof {
        assert(pv.take(pv.len() as int) =~= pv);
    }
    out
}


/// The `DT_NEEDED` names at the given string-table offsets, in order.
pub open spec fn needed_strings(t: Seq<u8>, offs: Seq<nat>) -> Option<Seq<Seq<char>>>
    decreases offs.len(),
{
    if offs.len() == 0 {
        Some(Seq::empty())
    } else {
        match needed_strings(t, offs.drop_last()) {
            None => None,
            Some(v) => match table_string(t, offs.last()) {
                None => None,
                Some(s) => Some(v.push(s)),
            },
        }
    }
}

/// A search path read from the string table, if the entry is present.
pub open spec fn opt_search(t: Seq<u8>, o: Option<nat>) -> Option<Seq<Seq<char>>> {
    match o {
        None => Some(Seq::empty()),
        Some(off) => match table_string(t, off) {
            None => None,
            Some(s) => Some(search_path(s)),
        },
    }
}

pub open spec fn min_phentsize(c: ElfClass) -> nat {
    if c == ElfClass::Class32 {
        32
    } else {
        56
    }
}

/// Metadata with no dynamic dependencies.
pub open spec fn plain_view(h: ElfHeader, interp: Option<Seq<char>>) -> ElfView {
    ElfView {
        class: h.class,
        endian: h.endian,
        machine: h.machine,
        interpreter: interp,
        needed: Seq::empty(),
        rpath: Seq::empty(),
        runpath: Seq::empty(),
    }
}

/// The dependency information of the dynamic table, once the program
/// headers have been read into `st`.
pub open spec fn dynamic_result(b: Seq<u8>, h: ElfHeader, st: PhState, doff: nat, dsz: nat) -> Result<ElfView, ElfFault> {
    let es = dyn_entry_size(h.class);
    if dsz % es != 0 {
        Err(ElfFault::MalformedDynamicTable)
    } else {
        let d = dyn_scan(b, h, doff, dsz / es);
        match d.strtab {
            None => if d.needed.len() == 0 && d.rpath is None && d.runpath is None {
                Ok(plain_view(h, st.interp))
            } else {
                Err(ElfFault::MalformedDynamicTable)
            },
            Some(va) => match d.strsz {
                None => Err(ElfFault::MalformedDynamicTable),
                Some(sz) => match vaddr_offset(st.segments, va, sz) {
                    Err(f) => Err(f),
                    Ok(o) => if o + sz > b.len() {
                        Err(ElfFault::MalformedHeader)
                    } else {
                        let t = b.subrange(o as int, (o + sz) as int);
                        match (needed_strings(t, d.needed), opt_search(t, d.rpath), opt_search(t, d.runpath)) {
                            (Some(ns), Some(rp), Some(rn)) => Ok(
                                ElfView { needed: ns, rpath: rp, runpath: rn, ..plain_view(h, st.interp) },
                            ),
                            _ => Err(ElfFault::MalformedStringTable),
                        }
                    },
                },
            },
        }
    }
}

/// Parse of an ELF file: header, program headers, then the dynamic table
/// and its string table.
pub open spec fn elf_result(b: Seq<u8>) -> Result<ElfView, ElfFault> {
    match header_of(b) {
        Err(f) => Err(f),
        Ok(h) => if h.phentsize == 0 || h.phnum == 0 {
            Ok(plain_view(h, None))
        } else if h.phentsize < min_phentsize(h.class) {
            Err(ElfFault::MalformedHeader)
        } else if h.phoff + h.phentsize * h.phnum > b.len() {
            Err(ElfFault::MalformedHeader)
        } else {
            match ph_scan(b, h, h.phnum) {
                Err(f) => Err(f),
                Ok(st) => match st.dynamic {
                    None => Ok(plain_view(h, st.interp)),
                    Some((doff, dsz)) => dynamic_result(b, h, st, doff, dsz),
                },
            }
        },
    }
}

fn read_needed(table: &[u8], offsets: &Vec<u64>) -> (res: Result<Vec<String>, ElfError>)
    ensures
        match needed_strings(table@, nat_seq(offsets@)) {
            Some(v) => res matches Ok(x) && strings_view(x@) == v,
            None => res matches Err(e) && e is MalformedStringTable,
        },
{
    let ghost ov = nat_seq(offsets@);
    let mut out: Vec<String> = Vec::new();
    let mut i: usize = 0;
    proof {
        assert(ov.subrange(0, 0) =~= Seq::<nat>::empty());
        assert(strings_view(out@) =~= Seq::<Seq<char>>::empty());
    }
    while i < offsets.len()
        invariant
            ov == nat_seq(offsets@),
            i <= ov.len(),
            needed_strings(table@, ov.subrange(0, i as int)) == Some(strings_view(out@)),
        decreases ov.len() - i,
    {
        proof {
            assert(ov.subrange(0, i + 1).drop_last() =~= ov.subrange(0, i as int));
            assert(ov.subrange(0, i + 1).last() == offsets@[i as int] as nat);
        }
        let s = match read_dyn_string(table, offsets[i]) {
            Ok(s) => s,
            Err(e) => {
                proof {
                    lemma_needed_none(table@, ov, (i + 1) as nat);
                }
                return Err(e);
            },
        };
        let ghost before = strings_view(out@);
        out.push(s);
        assert(strings_view(out@) =~= before.push(s@));
        i = i + 1;
    }
    assert(ov.subrange(0, ov.len() as int) =~= ov);
    Ok(out)
}

proof fn lemma_needed_none(t: Seq<u8>, offs: Seq<nat>, i: nat)
    requires
        i <= offs.len(),
        needed_strings(t, offs.subrange(0, i as int)) is None,
    ensures
        needed_strings(t, offs) is None,
    decreases offs.len() - i,
{
    if i < offs.len() {
        assert(offs.subrange(0, (i + 1) as int).drop_last() =~= offs.subrange(0, i as int));
        lemma_needed_none(t, offs, i + 1);
    } else {
        assert(offs.subrange(0, i as int) =~= offs);
    }
}

fn read_search(table: &[u8], entry: Option<u64>) -> (res: Result<Vec<String>, ElfError>)
    ensures
        match opt_search(table@, opt_nat(entry)) {
            Some(v) => res matches Ok(x) && strings_view(x@) == v,
            None => res matches Err(e) && e is MalformedStringTable,
        },
{
    match entry {
        None => {
            let v: Vec<String> = Vec::new();
            assert(strings_view(v@) =~= Seq::<Seq<char>>::empty());
            Ok(v)
        },
        Some(offset) => {
            let text = match read_dyn_string(table, offset) {
                Ok(t) => t,
                Err(e) => return Err(e),
            };
            Ok(split_search_path(text.as_str()))
        },
    }
}

/// Parses the ELF metadata the launcher needs (see `elf_result`).
pub fn parse_elf(bytes: &[u8]) -> (res: Result<ElfMetadata, ElfError>)
    ensures
        match elf_result(bytes@) {
            Ok(v) => res matches Ok(m) && m@ == v,
            Err(f) => res matches Err(e) && elf_fault_of(e) == f,
        },
{
    let (class, endian, machine, phoff, phentsize, phnum) = match decode_header(bytes) {
        Ok(h) => h,
        Err(e) => return Err(e),
    };
    let ghost h = header_of(bytes@)->Ok_0;
    let empty_interp: Option<String> = None;
    if phentsize == 0 || phnum == 0 {
        let m = ElfMetadata::new(class, endian, machine, empty_interp, Vec::new(), Vec::new(), Vec::new());
        assert(m@.needed =~= Seq::<Seq<char>>::empty());
        assert(m@.rpath =~= Seq::<Seq<char>>::empty());
        assert(m@.runpath =~= Seq::<Seq<char>>::empty());
        return Ok(m);
    }
    let minimum: u64 = match class {
        ElfClass::Class32 => 32,
        ElfClass::Class64 => 56,
    };
    if phentsize < minimum {
        return Err(ElfError::MalformedHeader("program-header entry size"));
    }
    proof {
        lemma_pow256_values();
        lemma_field_bound(bytes@, 42, 2, endian);
        lemma_field_bound(bytes@, 44, 2, endian);
        if class == ElfClass::Class64 {
            lemma_field_bound(bytes@, 54, 2, endian);
            lemma_field_bound(bytes@, 56, 2, endian);
        }
        assert(phentsize * phnum < 0x1_0000_0000) by (nonlinear_arith)
            requires
                phentsize < 0x1_0000,
                phnum < 0x1_0000,
        ;
    }
    let table_size = phentsize * phnum;
    if phoff > bytes.len() as u64 || table_size > bytes.len() as u64 - phoff {
        return Err(ElfError::MalformedHeader("out of bounds"));
    }
    let (segments, dynamic, interpreter) = match scan_program_headers(bytes, Ghost(h), class, endian, phoff, phentsize, phnum) {
        Ok(r) => r,
        Err(e) => return Err(e),
    };
    let ghost st = ph_scan(bytes@, h, phnum as nat)->Ok_0;
    let (dynamic_offset, dynamic_size) = match dynamic {
        None => {
            let m = ElfMetadata::new(class, endian, machine, interpreter, Vec::new(), Vec::new(), Vec::new());
            assert(m@.needed =~= Seq::<Seq<char>>::empty());
            assert(m@.rpath =~= Seq::<Seq<char>>::empty());
            assert(m@.runpath =~= Seq::<Seq<char>>::empty());
            return Ok(m);
        },
        Some(d) => d,
    };
    proof {
        lemma_ph_dynamic_in_range(bytes@, h, phnum as nat);
    }
    let entry_size: u64 = match class {
        ElfClass::Class32 => 8,
        ElfClass::Class64 => 16,
    };
    if dynamic_size % entry_size != 0 {
        return Err(ElfError::MalformedDynamicTable("entry alignment"));
    }
    let count = dynamic_size / entry_size;
    proof {
        assert(count * entry_size == dynamic_size) by (nonlinear_arith)
            requires
                dynamic_size % entry_size == 0,
                count == dynamic_size / entry_size,
                entry_size > 0,
        ;
    }
    let (needed_offsets, strtab_vaddr, strtab_size, rpath_offset, runpath_offset) = scan_dynamic(bytes, Ghost(h), class, endian, dynamic_offset, count);
    let strtab_vaddr = match strtab_vaddr {
        None => {
            if needed_offsets.len() == 0 && rpath_offset.is_none() && runpath_offset.is_none() {
                let m = ElfMetadata::new(class, endian, machine, interpreter, Vec::new(), Vec::new(), Vec::new());
                assert(m@.needed =~= Seq::<Seq<char>>::empty());
                assert(m@.rpath =~= Seq::<Seq<char>>::empty());
                assert(m@.runpath =~= Seq::<Seq<char>>::empty());
                return Ok(m);
            }
            return Err(ElfError::MalformedDynamicTable("missing DT_STRTAB"));
        },
        Some(v) => v,
    };
    let strtab_size = match strtab_size {
        None => return Err(ElfError::MalformedDynamicTable("missing DT_STRSZ")),
        Some(v) => v,
    };
    let strtab_offset = match vaddr_to_offset(&segments, strtab_vaddr, strtab_size) {
        Ok(o) => o,
        Err(e) => return Err(e),
    };
    if strtab_offset > bytes.len() as u64 || strtab_size > bytes.len() as u64 - strtab_offset {
        return Err(ElfError::MalformedHeader("out of bounds"));
    }
    let start = strtab_offset as usize;
    let end = (strtab_offset + strtab_size) as usize;
    let strtab = &bytes[start..end];
    assert(strtab@ =~= bytes@.subrange(strtab_offset as int, (strtab_offset + strtab_size) as int));
    let needed = match read_needed(strtab, &needed_offsets) {
        Ok(v) => v,
        Err(e) => return Err(e),
    };
    let rpath = match read_search(strtab, rpath_offset) {
        Ok(v) => v,
        Err(e) => return Err(e),
    };
    let runpath = match read_search(strtab, runpath_offset) {
        Ok(v) => v,
        Err(e) => return Err(e),
    };
    Ok(ElfMetadata::new(class, endian, machine, interpreter, needed, rpath, runpath))
}

proof fn lemma_ph_dynamic_in_range(b: Seq<u8>, h: ElfHeader, n: nat)
    requires
        ph_scan(b, h, n) is Ok,
    ensures
        ph_scan(b, h, n)->Ok_0.dynamic matches Some((o, s)) ==> o + s <= b.len(),
    decreases n,
{
    if n > 0 {
        lemma_ph_dynamic_in_range(b, h, (n - 1) as nat);
    }
}


// ---------------------------------------------------------------------------
// Logical paths
// ---------------------------------------------------------------------------

/// An absolute path without `.` or `..` components.
pub open spec fn absolute_normalized(p: Seq<char>) -> bool {
    let b = vstd::utf8::encode_utf8(p);
    is_rooted(b) && !has_navigation(b)
}

/// Accepts an absolute path without `.` or `..` components.
pub fn validate_absolute_normalized(path: &str) -> (res: Result<(), ElfError>)
    ensures
        res is Ok <==> absolute_normalized(path@),
        res matches Err(e) ==> e is UnsupportedDependencyPath,
{
    let b = path.as_bytes();
    if !(b.len() > 0 && b[0] == SLASH) {
        return Err(ElfError::UnsupportedDependencyPath(path.to_owned()));
    }
    let parts = path_parts_of(b);
    if parts_have_navigation(&parts) {
        return Err(ElfError::UnsupportedDependencyPath(path.to_owned()));
    }
    Ok(())
}

pub open spec fn dot_chars() -> Seq<char> {
    seq!['.']
}

pub open spec fn dotdot_chars() -> Seq<char> {
    seq!['.', '.']
}

/// A dependency name: non-empty, without NUL, and with no `/`-separated
/// piece equal to `.` or `..`.
pub open spec fn dependency_name_ok(n: Seq<char>) -> bool {
    &&& n.len() > 0
    &&& !n.contains('\0')
    &&& forall|i: int|
        0 <= i < split_seq(n, '/').len() ==> split_seq(n, '/')[i] != dot_chars()
            && split_seq(n, '/')[i] != dotdot_chars()
}

/// Accepts a dependency name (see `dependency_name_ok`).
pub fn validate_dependency_name(name: &str) -> (res: Result<(), ElfError>)
    ensures
        res is Ok <==> dependency_name_ok(name@),
        !dependency_name_ok(name@) ==> (res matches Err(ElfError::InvalidDependencyName(n)) && n@ == name@),
{
    let chars = chars_of(name);
    if chars.len() == 0 {
        return Err(ElfError::InvalidDependencyName(name.to_owned()));
    }
    let mut i: usize = 0;
    while i < chars.len()
        invariant
            chars@ == name@,
            i <= chars@.len(),
            forall|j: int| 0 <= j < i ==> chars@[j] != '\0',
        decreases chars@.len() - i,
    {
        if chars[i] == '\0' {
            assert(name@.contains('\0'));
            return Err(ElfError::InvalidDependencyName(name.to_owned()));
        }
        i = i + 1;
    }
    let pieces = split_chars(chars.as_slice(), '/');
    let mut k: usize = 0;
    while k < pieces.len()
        invariant
            pieces.deep_view() == split_seq(name@, '/'),
            k <= pieces@.len(),
            forall|j: int| 0 <= j < k ==> split_seq(name@, '/')[j] != dot_chars() && split_seq(name@, '/')[j] != dotdot_chars(),
        decreases pieces@.len() - k,
    {
        let piece = &pieces[k];
        assert(piece@ == split_seq(name@, '/')[k as int]);
        let is_dot = piece.len() == 1 && piece[0] == '.';
        let is_dotdot = piece.len() == 2 && piece[0] == '.' && piece[1] == '.';
        if is_dot || is_dotdot {
            proof {
                if is_dot {
                    assert(piece@ =~= dot_chars());
                } else {
                    assert(piece@ =~= dotdot_chars());
                }
            }
            return Err(ElfError::InvalidDependencyName(name.to_owned()));
        }
        proof {
            if piece@ == dot_chars() {
                assert(piece@.len() == 1);
            }
            if piece@ == dotdot_chars() {
                assert(piece@.len() == 2);
            }
        }
        k = k + 1;
    }
    Ok(())
}

/// `str::replace`: every non-overlapping occurrence of `pat`, scanning from
/// the left, replaced by `rep`.
pub open spec fn replace_all(s: Seq<char>, pat: Seq<char>, rep: Seq<char>) -> Seq<char>
    decreases s.len(),
{
    if s.len() == 0 || pat.len() == 0 {
        s
    } else if pat.len() <= s.len() && s.subrange(0, pat.len() as int) == pat {
        rep + replace_all(s.subrange(pat.len() as int, s.len() as int), pat, rep)
    } else {
        seq![s[0]] + replace_all(s.drop_first(), pat, rep)
    }
}

/// Replaces every occurrence of `pat` (non-empty) in `s` by `rep`.
pub fn replace_text(s: &str, pat: &str, rep: &str) -> (res: String)
    requires
        pat@.len() > 0,
    ensures
        res@ == replace_all(s@, pat@, rep@),
{
    let chars = chars_of(s);
    let p = chars_of(pat);
    let mut out = String::new();
    let mut i: usize = 0;
    let n = chars.len();
    assert(chars@.subrange(0, n as int) =~= chars@);
    while i < n
        invariant
            n == chars@.len(),
            chars@ == s@,
            p@ == pat@,
            p@.len() > 0,
            i <= n,
            out@ + replace_all(chars@.subrange(i as int, n as int), p@, rep@) == replace_all(s@, pat@, rep@),
        decreases n - i,
    {
        let ghost rest = chars@.subrange(i as int, n as int);
        if crate::text::has_prefix_at(chars.as_slice(), i, p.as_slice()) {
            assert(rest.subrange(0, p@.len() as int) =~= chars@.subrange(i as int, i + p@.len()));
            assert(rest.subrange(p@.len() as int, rest.len() as int) =~= chars@.subrange(i + p@.len(), n as int));
            let ghost before = out@;
            out.append(rep);
            assert(out@ == before + rep@);
            assert((before + rep@) + replace_all(chars@.subrange(i + p@.len(), n as int), p@, rep@) =~= before + (rep@ + replace_all(chars@.subrange(i + p@.len(), n as int), p@, rep@)));
            i = i + p.len();
        } else {
            proof {
                if p@.len() <= rest.len() && rest.subrange(0, p@.len() as int) == p@ {
                    assert(rest.subrange(0, p@.len() as int) =~= chars@.subrange(i as int, i + p@.len()));
                }
            }
            assert(rest.drop_first() =~= chars@.subrange(i + 1, n as int));
            let ghost before = out@;
            crate::text::string_push(&mut out, chars[i]);
            assert((before.push(chars@[i as int])) + replace_all(chars@.subrange(i + 1, n as int), p@, rep@) =~= before + (seq![rest[0]] + replace_all(rest.drop_first(), p@, rep@)));
            i = i + 1;
        }
    }
    assert(chars@.subrange(n as int, n as int) =~= Seq::<char>::empty());
    assert(out@ + Seq::<char>::empty() =~= out@);
    out
}

/// Normalization of the `/`-separated pieces of an absolute path: empty and
/// `.` pieces vanish, `..` removes the last kept piece (failing at the
/// root).
pub open spec fn normalize_pieces(pieces: Seq<Seq<char>>) -> Option<Seq<Seq<char>>>
    decreases pieces.len(),
{
    if pieces.len() == 0 {
        Some(Seq::empty())
    } else {
        match normalize_pieces(pieces.drop_last()) {
            None => None,
            Some(stack) => {
                let p = pieces.last();
                if p.len() == 0 || p == dot_chars() {
                    Some(stack)
                } else if p == dotdot_chars() {
                    if stack.len() == 0 {
                        None
                    } else {
                        Some(stack.drop_last())
                    }
                } else {
                    Some(stack.push(p))
                }
            }
        }
    }
}

/// `/` followed by the pieces joined with `/`.
pub open spec fn rooted_join(stack: Seq<Seq<char>>) -> Seq<char>
    decreases stack.len(),
{
    if stack.len() == 0 {
        seq!['/']
    } else if stack.len() == 1 {
        seq!['/'] + stack[0]
    } else {
        rooted_join(stack.drop_last()) + seq!['/'] + stack.last()
    }
}

/// The normalized form of an absolute path, or `None` when it is not
/// absolute or climbs above the root.
pub open spec fn normalized_path(p: Seq<char>) -> Option<Seq<char>> {
    if !(p.len() > 0 && p[0] == '/') {
        None
    } else {
        match normalize_pieces(split_seq(p, '/')) {
            None => None,
            Some(stack) => Some(rooted_join(stack)),
        }
    }
}

fn join_rooted(stack: &Vec<Vec<char>>) -> (res: String)
    ensures
        res@ == rooted_join(stack.deep_view()),
{
    let mut out = String::new();
    crate::text::string_push(&mut out, '/');
    let ghost sv = stack.deep_view();
    if stack.len() == 0 {
        assert(out@ =~= seq!['/']);
        return out;
    }
    let mut i: usize = 0;
    while i < stack.len()
        invariant
            sv == stack.deep_view(),
            sv.len() > 0,
            i <= sv.len(),
            i == 0 ==> out@ == seq!['/'],
            i > 0 ==> out@ == rooted_join(sv.subrange(0, i as int)),
        decreases sv.len() - i,
    {
        let piece = &stack[i];
        assert(piece@ == sv[i as int]);
        if i > 0 {
            crate::text::string_push(&mut out, '/');
        }
        let mut k: usize = 0;
        let ghost start = out@;
        while k < piece.len()
            invariant
                k <= piece@.len(),
                out@ == start + piece@.subrange(0, k as int),
            decreases piece@.len() - k,
        {
            crate::text::string_push(&mut out, piece[k]);
            assert(out@ =~= start + piece@.subrange(0, k + 1));
            k = k + 1;
        }
        assert(piece@.subrange(0, piece@.len() as int) =~= piece@);
        proof {
            let sub = sv.subrange(0, i + 1);
            assert(sub.last() == sv[i as int]);
            assert(sub.drop_last() =~= sv.subrange(0, i as int));
            if i == 0 {
                assert(sub.len() == 1);
                assert(sub[0] == sv[0]);
            }
        }
        i = i + 1;
    }
    assert(sv.subrange(0, sv.len() as int) =~= sv);
    out
}

/// Normalizes an absolute path (see `normalized_path`); a relative path or
/// one that climbs above the root is refused.
pub fn normalize_absolute_path(path: &str) -> (res: Result<String, ElfError>)
    ensures
        match normalized_path(path@) {
            Some(p) => res matches Ok(s) && s@ == p,
            None => res matches Err(ElfError::UnsupportedDependencyPath(s)) && s@ == path@,
        },
{
    let chars = chars_of(path);
    if !(chars.len() > 0 && chars[0] == '/') {
        return Err(ElfError::UnsupportedDependencyPath(path.to_owned()));
    }
    let pieces = split_chars(chars.as_slice(), '/');
    let ghost pv = pieces.deep_view();
    let mut stack: Vec<Vec<char>> = Vec::new();
    let mut i: usize = 0;
    assert(pv.subrange(0, 0) =~= Seq::<Seq<char>>::empty());
    assert(stack.deep_view() =~= Seq::<Seq<char>>::empty());
    while i < pieces.len()
        invariant
            pv == pieces.deep_view(),
            pv == split_seq(path@, '/'),
            i <= pv.len(),
            normalize_pieces(pv.subrange(0, i as int)) == Some(stack.deep_view()),
        decreases pv.len() - i,
    {
        let piece = &pieces[i];
        assert(piece@ == pv[i as int]);
        proof {
            assert(pv.subrange(0, i + 1).drop_last() =~= pv.subrange(0, i as int));
            assert(pv.subrange(0, i + 1).last() == pv[i as int]);
        }
        let is_dot = piece.len() == 1 && piece[0] == '.';
        let is_dotdot = piece.len() == 2 && piece[0] == '.' && piece[1] == '.';
        proof {
            if is_dot {
                assert(piece@ =~= dot_chars());
            }
            if is_dotdot {
                assert(piece@ =~= dotdot_chars());
            }
            if piece@ == dot_chars() {
                assert(piece@.len() == 1);
            }
            if piece@ == dotdot_chars() {
                assert(piece@.len() == 2);
            }
        }
        if piece.len() == 0 || is_dot {
        } else if is_dotdot {
            if stack.len() == 0 {
                proof {
                    lemma_normalize_none(pv, (i + 1) as nat);
                }
                return Err(ElfError::UnsupportedDependencyPath(path.to_owned()));
            }
            let ghost before = stack.deep_view();
            let _ = stack.pop();
            assert(stack.deep_view() =~= before.drop_last());
        } else {
            let ghost before = stack.deep_view();
            let copy = vstd::slice::slice_to_vec(piece.as_slice());
            stack.push(copy);
            assert(stack.deep_view() =~= before.push(pv[i as int]));
        }
        i = i + 1;
    }
    assert(pv.subrange(0, pv.len() as int) =~= pv);
    Ok(join_rooted(&stack))
}

proof fn lemma_normalize_none(pieces: Seq<Seq<char>>, i: nat)
    requires
        i <= pieces.len(),
        normalize_pieces(pieces.subrange(0, i as int)) is None,
    ensures
        normalize_pieces(pieces) is None,
    decreases pieces.len() - i,
{
    if i < pieces.len() {
        assert(pieces.subrange(0, (i + 1) as int).drop_last() =~= pieces.subrange(0, i as int));
        lemma_normalize_none(pieces, i + 1);
    } else {
        assert(pieces.subrange(0, i as int) =~= pieces);
    }
}

proof fn lemma_split_acc_prefix(s: Seq<char>, t: Seq<char>, i: nat)
    requires
        i <= s.len(),
        i <= t.len(),
        s.subrange(0, i as int) == t.subrange(0, i as int),
    ensures
        split_acc(s, '/', i) == split_acc(t, '/', i),
    decreases i,
{
    if i > 0 {
        assert(s.subrange(0, i - 1) =~= s.subrange(0, i as int).subrange(0, i - 1));
        assert(t.subrange(0, i - 1) =~= t.subrange(0, i as int).subrange(0, i - 1));
        assert(s[i - 1] == s.subrange(0, i as int)[i - 1]);
        assert(t[i - 1] == t.subrange(0, i as int)[i - 1]);
        lemma_split_acc_prefix(s, t, (i - 1) as nat);
    }
}

proof fn lemma_split_tail(a: Seq<char>, b: Seq<char>, k: nat)
    requires
        k <= b.len(),
        !b.contains('/'),
    ensures
        split_acc(a + seq!['/'] + b, '/', a.len() + 1 + k) == (split_seq(a, '/'), b.subrange(0, k as int)),
    decreases k,
{
    let s = a + seq!['/'] + b;
    if k == 0 {
        assert(s.subrange(0, a.len() as int) =~= a.subrange(0, a.len() as int));
        lemma_split_acc_prefix(s, a, a.len());
        assert(s[a.len() as int] == '/');
        assert(b.subrange(0, 0) =~= Seq::<char>::empty());
    } else {
        lemma_split_tail(a, b, (k - 1) as nat);
        let j = (k - 1) as int;
        assert(s[a.len() + 1 + j] == b[j]);
        assert(b[j] != '/') by {
            if b[j] == '/' {
                assert(b.contains('/'));
            }
        }
        assert(b.subrange(0, j).push(b[j]) =~= b.subrange(0, k as int));
    }
}

/// Splitting `a`, a `/` and a piece `b` without `/` gives the pieces of
/// `a` and then `b`.
proof fn lemma_split_append(a: Seq<char>, b: Seq<char>)
    requires
        !b.contains('/'),
    ensures
        split_seq(a + seq!['/'] + b, '/') == split_seq(a, '/').push(b),
{
    lemma_split_tail(a, b, b.len());
    assert(b.subrange(0, b.len() as int) =~= b);
    assert((a + seq!['/'] + b).len() == a.len() + 1 + b.len());
}

/// No piece of a split holds the separator.
proof fn lemma_split_pieces_clean(s: Seq<char>, i: nat)
    requires
        i <= s.len(),
    ensures
        !split_acc(s, '/', i).1.contains('/'),
        forall|k: int| 0 <= k < split_acc(s, '/', i).0.len() ==> !(#[trigger] split_acc(s, '/', i).0[k]).contains('/'),
    decreases i,
{
    if i > 0 {
        lemma_split_pieces_clean(s, (i - 1) as nat);
        let (done, cur) = split_acc(s, '/', (i - 1) as nat);
        if s[i - 1] != '/' {
            let c = s[i - 1];
            assert(!cur.push(c).contains('/')) by {
                if cur.push(c).contains('/') {
                    let j = choose|j: int| 0 <= j < cur.push(c).len() && cur.push(c)[j] == '/';
                    if j < cur.len() {
                        assert(cur[j] == '/');
                        assert(cur.contains('/'));
                    }
                }
            }
        } else {
            assert forall|k: int| 0 <= k < done.push(cur).len() implies !(#[trigger] done.push(cur)[k]).contains('/') by {
                if k < done.len() {
                    assert(done.push(cur)[k] == done[k]);
                }
            }
        }
    }
}

/// A piece that normalization keeps.
pub open spec fn kept_piece(p: Seq<char>) -> bool {
    p.len() > 0 && p != dot_chars() && p != dotdot_chars() && !p.contains('/')
}

proof fn lemma_normalize_kept(pieces: Seq<Seq<char>>)
    requires
        forall|k: int| 0 <= k < pieces.len() ==> !(#[trigger] pieces[k]).contains('/'),
        normalize_pieces(pieces) is Some,
    ensures
        forall|k: int| 0 <= k < normalize_pieces(pieces)->0.len() ==> kept_piece(#[trigger] normalize_pieces(pieces)->0[k]),
    decreases pieces.len(),
{
    if pieces.len() > 0 {
        let rest = pieces.drop_last();
        assert forall|k: int| 0 <= k < rest.len() implies !(#[trigger] rest[k]).contains('/') by {
            assert(rest[k] == pieces[k]);
        }
        lemma_normalize_kept(rest);
        let stack = normalize_pieces(rest)->0;
        let p = pieces.last();
        if !(p.len() == 0 || p == dot_chars()) && p != dotdot_chars() {
            assert(!p.contains('/'));
            assert forall|k: int| 0 <= k < stack.push(p).len() implies kept_piece(#[trigger] stack.push(p)[k]) by {
                if k < stack.len() {
                    assert(stack.push(p)[k] == stack[k]);
                }
            }
        } else if p == dotdot_chars() {
            assert forall|k: int| 0 <= k < stack.drop_last().len() implies kept_piece(#[trigger] stack.drop_last()[k]) by {
                assert(stack.drop_last()[k] == stack[k]);
            }
        }
    }
}

proof fn lemma_rooted_join_shape(stack: Seq<Seq<char>>)
    requires
        forall|k: int| 0 <= k < stack.len() ==> kept_piece(#[trigger] stack[k]),
    ensures
        rooted_join(stack).len() > 0,
        rooted_join(stack)[0] == '/',
        stack.len() == 0 ==> split_seq(rooted_join(stack), '/') == seq![Seq::<char>::empty(), Seq::<char>::empty()],
        stack.len() > 0 ==> split_seq(rooted_join(stack), '/') == seq![Seq::<char>::empty()] + stack,
    decreases stack.len(),
{
    let e = Seq::<char>::empty();
    if stack.len() == 0 {
        assert(seq!['/'] =~= e + seq!['/'] + e);
        lemma_split_append(e, e);
        assert(split_seq(e, '/') =~= seq![e]);
    } else if stack.len() == 1 {
        assert(seq!['/'] + stack[0] =~= e + seq!['/'] + stack[0]);
        lemma_split_append(e, stack[0]);
        assert(split_seq(e, '/') =~= seq![e]);
        assert(seq![e].push(stack[0]) =~= seq![e] + stack);
    } else {
        let rest = stack.drop_last();
        assert forall|k: int| 0 <= k < rest.len() implies kept_piece(#[trigger] rest[k]) by {
            assert(rest[k] == stack[k]);
        }
        lemma_rooted_join_shape(rest);
        assert(kept_piece(stack.last()));
        lemma_split_append(rooted_join(rest), stack.last());
        assert((seq![e] + rest).push(stack.last()) =~= seq![e] + stack);
        let r = rooted_join(rest);
        assert((r + seq!['/'] + stack.last())[0] == r[0]);
    }
}

proof fn lemma_normalize_clean(stack: Seq<Seq<char>>)
    requires
        forall|k: int| 0 <= k < stack.len() ==> kept_piece(#[trigger] stack[k]),
    ensures
        normalize_pieces(seq![Seq::<char>::empty()] + stack) == Some(stack),
    decreases stack.len(),
{
    let e = Seq::<char>::empty();
    if stack.len() == 0 {
        assert(seq![e] + stack =~= seq![e]);
        assert(seq![e].drop_last() =~= Seq::<Seq<char>>::empty());
        assert(normalize_pieces(Seq::<Seq<char>>::empty()) == Some(Seq::<Seq<char>>::empty()));
        assert(seq![e].last().len() == 0);
    } else {
        let rest = stack.drop_last();
        assert forall|k: int| 0 <= k < rest.len() implies kept_piece(#[trigger] rest[k]) by {
            assert(rest[k] == stack[k]);
        }
        lemma_normalize_clean(rest);
        assert((seq![e] + stack).drop_last() =~= seq![e] + rest);
        assert((seq![e] + stack).last() == stack.last());
        assert(kept_piece(stack.last()));
        let l = stack.last();
        assert(l.len() > 0 && l != dot_chars() && l != dotdot_chars());
        assert(rest.push(l) =~= stack);
        assert((seq![e] + stack).len() > 0);
    }
}

/// Normalizing is idempotent, and what it gives has no `.` or `..`
/// component: an absolute path normalizes to one that normalizes to
/// itself, and none of whose `/`-separated pieces is `.` or `..`.
pub proof fn lemma_normalized_path_idempotent(p: Seq<char>)
    requires
        normalized_path(p) is Some,
    ensures
        normalized_path(normalized_path(p)->0) == normalized_path(p),
        forall|i: int| 0 <= i < split_seq(normalized_path(p)->0, '/').len() ==> {
            &&& #[trigger] split_seq(normalized_path(p)->0, '/')[i] != dot_chars()
            &&& split_seq(normalized_path(p)->0, '/')[i] != dotdot_chars()
        },
{
    let pieces = split_seq(p, '/');
    lemma_split_pieces_clean(p, p.len());
    assert forall|k: int| 0 <= k < pieces.len() implies !(#[trigger] pieces[k]).contains('/') by {
        let (done, cur) = split_acc(p, '/', p.len());
        if k < done.len() {
            assert(pieces[k] == done[k]);
        } else {
            assert(pieces[k] == cur);
        }
    }
    lemma_normalize_kept(pieces);
    let stack = normalize_pieces(pieces)->0;
    let q = rooted_join(stack);
    lemma_rooted_join_shape(stack);
    let e = Seq::<char>::empty();
    if stack.len() == 0 {
        lemma_normalize_clean(Seq::<Seq<char>>::empty());
        assert(seq![e] + Seq::<Seq<char>>::empty() =~= seq![e]);
        assert(normalize_pieces(seq![e]) == Some(Seq::<Seq<char>>::empty()));
        assert(seq![e, e].drop_last() =~= seq![e]);
        assert(seq![e, e].last().len() == 0);
        assert(normalize_pieces(seq![e, e].drop_last()) == Some(Seq::<Seq<char>>::empty()));
        assert(normalize_pieces(seq![e, e]) == Some(Seq::<Seq<char>>::empty()));
        assert(rooted_join(Seq::<Seq<char>>::empty()) == q);
        assert forall|i: int| 0 <= i < split_seq(q, '/').len() implies {
            &&& #[trigger] split_seq(q, '/')[i] != dot_chars()
            &&& split_seq(q, '/')[i] != dotdot_chars()
        } by {
            assert(split_seq(q, '/')[i] == e);
            assert(dot_chars().len() == 1);
            assert(dotdot_chars().len() == 2);
        }
    } else {
        lemma_normalize_clean(stack);
        assert forall|i: int| 0 <= i < split_seq(q, '/').len() implies {
            &&& #[trigger] split_seq(q, '/')[i] != dot_chars()
            &&& split_seq(q, '/')[i] != dotdot_chars()
        } by {
            if i == 0 {
                assert(split_seq(q, '/')[i] == e);
                assert(dot_chars().len() == 1);
                assert(dotdot_chars().len() == 2);
            } else {
                assert(split_seq(q, '/')[i] == stack[i - 1]);
                assert(kept_piece(stack[i - 1]));
            }
        }
    }
}

pub open spec fn origin_braced() -> Seq<char> {
    seq!['$', '{', 'O', 'R', 'I', 'G', 'I', 'N', '}']
}

pub open spec fn origin_plain() -> Seq<char> {
    seq!['$', 'O', 'R', 'I', 'G', 'I', 'N']
}

/// A search-path entry with `${ORIGIN}` and then `$ORIGIN` replaced by the
/// requester's directory, normalized inside the absolute namespace.
/// A search-path entry with `${ORIGIN}` and then `$ORIGIN` replaced.
pub open spec fn origin_replaced(entry: Seq<char>, origin: Seq<char>) -> Seq<char> {
    replace_all(replace_all(entry, origin_braced(), origin), origin_plain(), origin)
}

pub open spec fn expanded_entry(entry: Seq<char>, origin: Seq<char>) -> Option<Seq<char>> {
    normalized_path(origin_replaced(entry, origin))
}

/// Expands `$ORIGIN` in a search-path entry (see `expanded_entry`).
pub fn expand_search_entry(entry: &str, origin: &str) -> (res: Result<String, ElfError>)
    ensures
        match expanded_entry(entry@, origin@) {
            Some(p) => res matches Ok(s) && s@ == p,
            None => res matches Err(ElfError::UnsupportedDependencyPath(s)) && s@ == origin_replaced(entry@, origin@),
        },
{
    proof {
        reveal_strlit("${ORIGIN}");
        reveal_strlit("$ORIGIN");
        assert("${ORIGIN}"@ =~= origin_braced());
        assert("$ORIGIN"@ =~= origin_plain());
    }
    let first = replace_text(entry, "${ORIGIN}", origin);
    let second = replace_text(first.as_str(), "$ORIGIN", origin);
    normalize_absolute_path(second.as_str())
}


// ---------------------------------------------------------------------------
// Dependency closure
// ---------------------------------------------------------------------------

/// Supplies ELF metadata and resolves dependencies; implemented by the
/// filesystem resolver and by in-memory resolvers.
///
/// A resolver whose answers depend on its arguments alone may say so by
/// `spec_answers_fixed`, and name its answers by `spec_inspect_answer`,
/// `spec_interpreter_answer` and `spec_needed_answer`; its methods then
/// return exactly those. By default a resolver promises nothing of its
/// answers.
pub trait ElfDependencyResolver {
    open spec fn spec_answers_fixed(&self) -> bool {
        false
    }

    open spec fn spec_inspect_answer(&self, path: Seq<char>) -> Option<ElfView> {
        vstd::pervasive::arbitrary()
    }

    open spec fn spec_interpreter_answer(&self, interpreter: Seq<char>) -> Option<Seq<char>> {
        vstd::pervasive::arbitrary()
    }

    open spec fn spec_needed_answer(&self, requester: Seq<char>, metadata: ElfView, name: Seq<char>) -> Option<Seq<char>> {
        vstd::pervasive::arbitrary()
    }

    fn inspect(&self, path: &str) -> (res: Result<ElfMetadata, ElfError>)
        ensures
            self.spec_answers_fixed() ==> match self.spec_inspect_answer(path@) {
                Some(v) => res matches Ok(m) && m@ == v,
                None => res is Err,
            },
    ;

    fn resolve_interpreter(&self, interpreter: &str) -> (res: Result<String, ElfError>)
        ensures
            self.spec_answers_fixed() ==> match self.spec_interpreter_answer(interpreter@) {
                Some(p) => res matches Ok(s) && s@ == p,
                None => res is Err,
            },
    ;

    fn resolve_needed(&self, requester: &str, metadata: &ElfMetadata, name: &str) -> (res: Result<String, ElfError>)
        ensures
            self.spec_answers_fixed() ==> match self.spec_needed_answer(requester@, metadata@, name@) {
                Some(p) => res matches Ok(s) && s@ == p,
                None => res is Err,
            },
    ;
}

/// A resolver held in memory: the metadata of each file by path, the path
/// each interpreter resolves to, and, per requesting file, the path each of
/// its `DT_NEEDED` names resolves to. Its answers depend on the arguments
/// alone; what it does not hold is `DependencyNotFound`. The entry added
/// last for a key is the one that answers.
pub struct MemoryElfResolver {
    files: Vec<(String, ElfMetadata)>,
    interpreters: Vec<(String, String)>,
    needed: Vec<(String, Vec<(String, String)>)>,
}

impl MemoryElfResolver {
    /// Nothing held.
    pub fn new() -> (res: MemoryElfResolver)
        ensures
            forall|i: Seq<char>| #[trigger] res.spec_interpreter_answer(i) is None,
            forall|r: Seq<char>, m: ElfView, n: Seq<char>| #[trigger] res.spec_needed_answer(r, m, n) is None,
    {
        MemoryElfResolver { files: Vec::new(), interpreters: Vec::new(), needed: Vec::new() }
    }

    /// Holds `metadata` as what inspecting `path` gives.
    pub fn add_file(&mut self, path: String, metadata: ElfMetadata)
        ensures
            forall|i: Seq<char>| #[trigger] final(self).spec_interpreter_answer(i) == old(self).spec_interpreter_answer(i),
            forall|r: Seq<char>, m: ElfView, n: Seq<char>| #[trigger] final(self).spec_needed_answer(r, m, n) == old(self).spec_needed_answer(r, m, n),
    {
        self.files.insert(0, (path, metadata));
    }

    /// Resolves the interpreter `interpreter` to `path`.
    pub fn add_interpreter(&mut self, interpreter: String, path: String)
        ensures
            final(self).spec_interpreter_answer(interpreter@) == Some(path@),
            forall|i: Seq<char>| i != interpreter@ ==> #[trigger] final(self).spec_interpreter_answer(i) == old(self).spec_interpreter_answer(i),
            forall|r: Seq<char>, m: ElfView, n: Seq<char>| #[trigger] final(self).spec_needed_answer(r, m, n) == old(self).spec_needed_answer(r, m, n),
    {
        let ghost before = self.interpreters@;
        let ghost iv = interpreter@;
        self.interpreters.insert(0, (interpreter, path));
        proof {
            let after = self.interpreters@;
            before.insert_ensures(0, after[0]);
            assert(after == before.insert(0, after[0]));
            assert forall|k: int| 0 <= k < before.len() implies after[k + 1] == before[k] by {
                assert(before.insert(0, after[0])[k + 1] == before[k]);
            }
            assert forall|i: Seq<char>| i != iv implies #[trigger] self.spec_interpreter_answer(i) == old(self).spec_interpreter_answer(i) by {
                lemma_first_key_shift(before, after, i, 0);
                crate::catalog::lemma_first_key(before, i, 0);
                if let Some(j) = first_key(before, i, 0) {
                    assert(after[j + 1] == before[j]);
                }
            }
        }
    }

    /// Resolves the `DT_NEEDED` name `name` of the file `requester` to `path`.
    pub fn add_needed(&mut self, requester: String, name: String, path: String)
        ensures
            forall|m: ElfView| #[trigger] final(self).spec_needed_answer(requester@, m, name@) == Some(path@),
            forall|i: Seq<char>| #[trigger] final(self).spec_interpreter_answer(i) == old(self).spec_interpreter_answer(i),
    {
        let ghost before = self.needed@;
        let mut entries: Vec<(String, String)> = match find_key(&self.needed, requester.as_str()) {
            Some(j) => copy_pairs(&self.needed[j].1),
            None => Vec::new(),
        };
        entries.insert(0, (name, path));
        self.needed.insert(0, (requester, entries));
    }
}

fn copy_pairs(v: &Vec<(String, String)>) -> (res: Vec<(String, String)>)
    ensures
        res@.len() == v@.len(),
        forall|i: int| 0 <= i < v@.len() ==> #[trigger] res@[i].0@ == v@[i].0@ && res@[i].1@ == v@[i].1@,
{
    let mut out: Vec<(String, String)> = Vec::new();
    let mut i: usize = 0;
    while i < v.len()
        invariant
            i <= v@.len(),
            out@.len() == i,
            forall|k: int| 0 <= k < i ==> #[trigger] out@[k].0@ == v@[k].0@ && out@[k].1@ == v@[k].1@,
        decreases v@.len() - i,
    {
        out.push((v[i].0.clone(), v[i].1.clone()));
        i = i + 1;
    }
    out
}

proof fn lemma_first_key_shift<T>(before: Seq<(String, T)>, after: Seq<(String, T)>, q: Seq<char>, i: int)
    requires
        after.len() == before.len() + 1,
        forall|k: int| 0 <= k < before.len() ==> after[k + 1] == before[k],
        after[0].0@ != q,
        0 <= i <= before.len(),
    ensures
        first_key(after, q, i + 1) == (match first_key(before, q, i) {
            Some(j) => Some(j + 1),
            None => None::<int>,
        }),
        first_key(after, q, 0) == first_key(after, q, 1),
    decreases before.len() - i,
{
    if i < before.len() {
        assert(after[i + 1] == before[i]);
        if before[i].0@ != q {
            lemma_first_key_shift(before, after, q, i + 1);
        }
    }
}

impl ElfDependencyResolver for MemoryElfResolver {
    open spec fn spec_answers_fixed(&self) -> bool {
        true
    }

    closed spec fn spec_inspect_answer(&self, path: Seq<char>) -> Option<ElfView> {
        match first_key(self.files@, path, 0) {
            Some(j) => Some(self.files@[j].1@),
            None => None,
        }
    }

    closed spec fn spec_interpreter_answer(&self, interpreter: Seq<char>) -> Option<Seq<char>> {
        match first_key(self.interpreters@, interpreter, 0) {
            Some(j) => Some(self.interpreters@[j].1@),
            None => None,
        }
    }

    closed spec fn spec_needed_answer(&self, requester: Seq<char>, metadata: ElfView, name: Seq<char>) -> Option<Seq<char>> {
        match first_key(self.needed@, requester, 0) {
            Some(j) => match first_key(self.needed@[j].1@, name, 0) {
                Some(l) => Some(self.needed@[j].1@[l].1@),
                None => None,
            },
            None => None,
        }
    }

    fn inspect(&self, path: &str) -> (res: Result<ElfMetadata, ElfError>) {
        match find_key(&self.files, path) {
            Some(j) => Ok(self.files[j].1.copy()),
            None => Err(ElfError::DependencyNotFound(String::from_str(path))),
        }
    }

    fn resolve_interpreter(&self, interpreter: &str) -> (res: Result<String, ElfError>) {
        match find_key(&self.interpreters, interpreter) {
            Some(j) => Ok(self.interpreters[j].1.clone()),
            None => Err(ElfError::DependencyNotFound(String::from_str(interpreter))),
        }
    }

    fn resolve_needed(&self, requester: &str, metadata: &ElfMetadata, name: &str) -> (res: Result<String, ElfError>) {
        match find_key(&self.needed, requester) {
            Some(j) => match find_key(&self.needed[j].1, name) {
                Some(l) => Ok(self.needed[j].1[l].1.clone()),
                None => Err(ElfError::DependencyNotFound(String::from_str(name))),
            },
            None => Err(ElfError::DependencyNotFound(String::from_str(name))),
        }
    }
}

/// One file of a dependency closure.
#[derive(Clone, Debug, PartialEq, Eq)]
pub struct ElfDependencyNode {
    path: String,
    metadata: ElfMetadata,
}

impl ElfDependencyNode {
    pub closed spec fn spec_path(&self) -> Seq<char> {
        self.path@
    }

    pub closed spec fn spec_metadata(&self) -> ElfView {
        self.metadata@
    }

    pub fn path(&self) -> (res: &str)
        ensures
            res@ == self.spec_path(),
    {
        self.path.as_str()
    }

    pub fn metadata(&self) -> (res: &ElfMetadata)
        ensures
            res@ == self.spec_metadata(),
    {
        &self.metadata
    }
}

/// The files an executable needs, the executable first, each file once.
#[derive(Clone, Debug, PartialEq, Eq)]
pub struct ElfDependencyClosure {
    root: String,
    nodes: Vec<ElfDependencyNode>,
}

pub open spec fn path_key(p: Seq<char>) -> Seq<PathPart> {
    path_parts(vstd::utf8::encode_utf8(p))
}

use crate::path::{ExecPart, PathPart, parts_eq, parts_less, parts_lt, lemma_parts_order};

fn contains_parts(all: &Vec<Vec<ExecPart>>, p: &Vec<ExecPart>) -> (res: bool)
    ensures
        res == exists|j: int| 0 <= j < all@.len() && all@[j].deep_view() == p.deep_view(),
{
    let mut j: usize = 0;
    while j < all.len()
        invariant
            j <= all@.len(),
            forall|k: int| 0 <= k < j ==> all@[k].deep_view() != p.deep_view(),
        decreases all@.len() - j,
    {
        if parts_eq(&all[j], p) {
            return true;
        }
        j = j + 1;
    }
    false
}

/// Every node has the machine of the first, and no two nodes name the same
/// path (component-wise).
pub open spec fn closure_consistent(nodes: Seq<ElfDependencyNode>) -> bool {
    &&& forall|i: int| 0 <= i < nodes.len() ==> #[trigger] nodes[i].spec_metadata().machine == nodes[0].spec_metadata().machine
    &&& forall|i: int, j: int|
        0 <= i < nodes.len() && 0 <= j < nodes.len() && i != j ==> path_key(nodes[i].spec_path())
            != path_key(nodes[j].spec_path())
}

/// The keys of the nodes' paths.
pub open spec fn node_keys(nodes: Seq<ElfDependencyNode>) -> Seq<Seq<PathPart>> {
    Seq::new(nodes.len(), |i: int| path_key(nodes[i].spec_path()))
}

/// Under the resolver's fixed answers, the interpreter of the file `path`
/// (metadata `m`) and its first `count` `DT_NEEDED` names resolve to paths
/// whose keys are among `keys`.
pub open spec fn deps_resolved<R: ElfDependencyResolver>(
    resolver: &R,
    path: Seq<char>,
    m: ElfView,
    count: int,
    keys: Seq<Seq<PathPart>>,
) -> bool {
    &&& (m.interpreter matches Some(i) ==> (resolver.spec_interpreter_answer(i) matches Some(p) && keys.contains(path_key(p))))
    &&& forall|d: int|
        0 <= d < count ==> (#[trigger] resolver.spec_needed_answer(path, m, m.needed[d]) matches Some(p) && keys.contains(
            path_key(p),
        ))
}

/// Every node's interpreter and `DT_NEEDED` names resolve to paths whose
/// keys are among `keys`.
pub open spec fn nodes_resolved<R: ElfDependencyResolver>(resolver: &R, nodes: Seq<ElfDependencyNode>, keys: Seq<Seq<PathPart>>) -> bool {
    forall|i: int|
        0 <= i < nodes.len() ==> deps_resolved(
            resolver,
            #[trigger] nodes[i].spec_path(),
            nodes[i].spec_metadata(),
            nodes[i].spec_metadata().needed.len() as int,
            keys,
        )
}

/// Under the resolver's fixed answers, the file `path` (metadata `m`)
/// names `p` as its interpreter or in one of its `DT_NEEDED` entries.
pub open spec fn names_dep<R: ElfDependencyResolver>(resolver: &R, path: Seq<char>, m: ElfView, p: Seq<char>) -> bool {
    ||| (m.interpreter matches Some(i) && resolver.spec_interpreter_answer(i) == Some(p))
    ||| exists|d: int|
        0 <= d < m.needed.len() && #[trigger] resolver.spec_needed_answer(path, m, m.needed[d]) == Some(p)
}

/// Some node names `p` as a dependency.
pub open spec fn reached_from<R: ElfDependencyResolver>(resolver: &R, nodes: Seq<ElfDependencyNode>, p: Seq<char>) -> bool {
    exists|j: int| 0 <= j < nodes.len() && names_dep(resolver, #[trigger] nodes[j].spec_path(), nodes[j].spec_metadata(), p)
}

/// Every node is the root or a dependency some node names: nothing but
/// what the root reaches is collected.
pub open spec fn nodes_reached<R: ElfDependencyResolver>(resolver: &R, root: Seq<char>, nodes: Seq<ElfDependencyNode>) -> bool {
    forall|i: int| 0 <= i < nodes.len() ==> (#[trigger] nodes[i]).spec_path() == root || reached_from(resolver, nodes, nodes[i].spec_path())
}

/// Every queued file is the root, named by a node, or named by the file
/// `pend` being visited.
pub open spec fn queue_reached<R: ElfDependencyResolver>(
    resolver: &R,
    root: Seq<char>,
    nodes: Seq<ElfDependencyNode>,
    queue: Seq<(Seq<char>, ElfView)>,
    pend: Option<(Seq<char>, ElfView)>,
) -> bool {
    forall|q: int|
        0 <= q < queue.len() ==> (#[trigger] queue[q]).0 == root || reached_from(resolver, nodes, queue[q].0) || (pend matches Some(
            x,
        ) && names_dep(resolver, x.0, x.1, queue[q].0))
}

proof fn lemma_reached_insert<R: ElfDependencyResolver>(resolver: &R, a: Seq<ElfDependencyNode>, b: Seq<ElfDependencyNode>, k: int, p: Seq<char>)
    requires
        0 <= k < b.len(),
        b.len() == a.len() + 1,
        b == a.insert(k, b[k]),
        reached_from(resolver, a, p) || names_dep(resolver, b[k].spec_path(), b[k].spec_metadata(), p),
    ensures
        reached_from(resolver, b, p),
{
    a.insert_ensures(k, b[k]);
    if names_dep(resolver, b[k].spec_path(), b[k].spec_metadata(), p) {
        assert(names_dep(resolver, b[k].spec_path(), b[k].spec_metadata(), p));
    } else {
        let j = choose|j: int| 0 <= j < a.len() && names_dep(resolver, #[trigger] a[j].spec_path(), a[j].spec_metadata(), p);
        if j < k {
            assert(b[j] == a[j]);
            assert(names_dep(resolver, b[j].spec_path(), b[j].spec_metadata(), p));
        } else {
            assert(b[j + 1] == a[j]);
            assert(names_dep(resolver, b[j + 1].spec_path(), b[j + 1].spec_metadata(), p));
        }
    }
}

proof fn lemma_reached_after_add<R: ElfDependencyResolver>(
    resolver: &R,
    root: Seq<char>,
    a: Seq<ElfDependencyNode>,
    b: Seq<ElfDependencyNode>,
    k: int,
    queue: Seq<(Seq<char>, ElfView)>,
)
    requires
        0 <= k < b.len(),
        b.len() == a.len() + 1,
        b == a.insert(k, b[k]),
        nodes_reached(resolver, root, a),
        b[k].spec_path() == root || reached_from(resolver, a, b[k].spec_path()),
        queue_reached(resolver, root, a, queue, Some((b[k].spec_path(), b[k].spec_metadata()))),
    ensures
        nodes_reached(resolver, root, b),
        queue_reached(resolver, root, b, queue, None),
{
    a.insert_ensures(k, b[k]);
    assert forall|i: int| 0 <= i < b.len() implies (#[trigger] b[i]).spec_path() == root || reached_from(
        resolver,
        b,
        b[i].spec_path(),
    ) by {
        if i < k {
            assert(b[i] == a[i]);
            if a[i].spec_path() != root {
                lemma_reached_insert(resolver, a, b, k, b[i].spec_path());
            }
        } else if i > k {
            assert(b[i] == a[i - 1]);
            if a[i - 1].spec_path() != root {
                lemma_reached_insert(resolver, a, b, k, b[i].spec_path());
            }
        } else if b[k].spec_path() != root {
            lemma_reached_insert(resolver, a, b, k, b[k].spec_path());
        }
    }
    assert forall|q: int| 0 <= q < queue.len() implies (#[trigger] queue[q]).0 == root || reached_from(resolver, b, queue[q].0)
        || (None::<(Seq<char>, ElfView)> matches Some(x) && names_dep(resolver, x.0, x.1, queue[q].0)) by {
        if queue[q].0 != root {
            lemma_reached_insert(resolver, a, b, k, queue[q].0);
        }
    }
}

proof fn lemma_queue_drop<R: ElfDependencyResolver>(
    resolver: &R,
    root: Seq<char>,
    nodes: Seq<ElfDependencyNode>,
    a: Seq<(Seq<char>, ElfView)>,
    b: Seq<(Seq<char>, ElfView)>,
    pend: Option<(Seq<char>, ElfView)>,
)
    requires
        queue_reached(resolver, root, nodes, a, None),
        a.len() > 0,
        b == a.drop_last(),
    ensures
        queue_reached(resolver, root, nodes, b, pend),
        a.last().0 == root || reached_from(resolver, nodes, a.last().0),
{
    assert(a[a.len() - 1] == a.last());
    assert forall|q: int| 0 <= q < b.len() implies (#[trigger] b[q]).0 == root || reached_from(resolver, nodes, b[q].0)
        || (pend matches Some(x) && names_dep(resolver, x.0, x.1, b[q].0)) by {
        assert(b[q] == a[q]);
    }
}

proof fn lemma_queue_push<R: ElfDependencyResolver>(
    resolver: &R,
    root: Seq<char>,
    nodes: Seq<ElfDependencyNode>,
    a: Seq<(Seq<char>, ElfView)>,
    x: (Seq<char>, ElfView),
    pend: (Seq<char>, ElfView),
)
    requires
        queue_reached(resolver, root, nodes, a, Some(pend)),
        names_dep(resolver, pend.0, pend.1, x.0),
    ensures
        queue_reached(resolver, root, nodes, a.push(x), Some(pend)),
{
    assert forall|q: int| 0 <= q < a.push(x).len() implies (#[trigger] a.push(x)[q]).0 == root || reached_from(
        resolver,
        nodes,
        a.push(x)[q].0,
    ) || (Some(pend) matches Some(y) && names_dep(resolver, y.0, y.1, a.push(x)[q].0)) by {
        if q < a.len() {
            assert(a.push(x)[q] == a[q]);
        }
    }
}

/// Every node's metadata is what inspecting its path gives.
pub open spec fn nodes_inspected<R: ElfDependencyResolver>(resolver: &R, nodes: Seq<ElfDependencyNode>) -> bool {
    forall|i: int|
        0 <= i < nodes.len() ==> resolver.spec_inspect_answer(#[trigger] nodes[i].spec_path()) == Some(nodes[i].spec_metadata())
}

/// Every queued file's metadata is what inspecting its path gives.
pub open spec fn queue_inspected<R: ElfDependencyResolver>(resolver: &R, queue: Seq<(Seq<char>, ElfView)>) -> bool {
    forall|q: int| 0 <= q < queue.len() ==> resolver.spec_inspect_answer((#[trigger] queue[q]).0) == Some(queue[q].1)
}

proof fn lemma_inspected_after_add<R: ElfDependencyResolver>(resolver: &R, a: Seq<ElfDependencyNode>, b: Seq<ElfDependencyNode>, k: int)
    requires
        0 <= k < b.len(),
        b.len() == a.len() + 1,
        b == a.insert(k, b[k]),
        nodes_inspected(resolver, a),
        resolver.spec_inspect_answer(b[k].spec_path()) == Some(b[k].spec_metadata()),
    ensures
        nodes_inspected(resolver, b),
{
    a.insert_ensures(k, b[k]);
    assert forall|i: int| 0 <= i < b.len() implies resolver.spec_inspect_answer(#[trigger] b[i].spec_path()) == Some(
        b[i].spec_metadata(),
    ) by {
        if i < k {
            assert(b[i] == a[i]);
        } else if i > k {
            assert(b[i] == a[i - 1]);
        }
    }
}

proof fn lemma_deps_grow<R: ElfDependencyResolver>(resolver: &R, path: Seq<char>, m: ElfView, count: int, keys: Seq<Seq<PathPart>>, k: Seq<PathPart>)
    requires
        deps_resolved(resolver, path, m, count, keys),
    ensures
        deps_resolved(resolver, path, m, count, keys.push(k)),
{
    assert forall|x: Seq<PathPart>| keys.contains(x) implies keys.push(k).contains(x) by {
        let j = choose|j: int| 0 <= j < keys.len() && keys[j] == x;
        assert(keys.push(k)[j] == x);
    }
}

proof fn lemma_nodes_grow<R: ElfDependencyResolver>(resolver: &R, nodes: Seq<ElfDependencyNode>, keys: Seq<Seq<PathPart>>, k: Seq<PathPart>)
    requires
        nodes_resolved(resolver, nodes, keys),
    ensures
        nodes_resolved(resolver, nodes, keys.push(k)),
{
    assert forall|i: int| 0 <= i < nodes.len() implies deps_resolved(
        resolver,
        #[trigger] nodes[i].spec_path(),
        nodes[i].spec_metadata(),
        nodes[i].spec_metadata().needed.len() as int,
        keys.push(k),
    ) by {
        lemma_deps_grow(resolver, nodes[i].spec_path(), nodes[i].spec_metadata(), nodes[i].spec_metadata().needed.len() as int, keys, k);
    }
}

impl ElfDependencyClosure {
    pub closed spec fn spec_root(&self) -> Seq<char> {
        self.root@
    }

    pub closed spec fn spec_nodes(&self) -> Seq<ElfDependencyNode> {
        self.nodes@
    }

    /// Collects the closure of `root` under the resolver: the root must be
    /// an absolute normalized path; every file reached through an
    /// interpreter or a `DT_NEEDED` entry is inspected once; any file whose
    /// machine differs from the root's fails the whole closure. Cycles end
    /// because each path is scheduled at most once. The nodes come in path
    /// order (component by component, as `Path` orders). The decisions are
    /// those of [`ClosureBuilder`]; this function only asks the resolver.
    pub fn build<R: ElfDependencyResolver>(root: String, resolver: &R) -> (res: Result<ElfDependencyClosure, ElfError>)
        ensures
            !absolute_normalized(root@) ==> (res matches Err(e) && e is UnsupportedDependencyPath),
            res matches Ok(c) ==> (c.spec_root() == root@ && c.spec_nodes().len() >= 1
                && (exists|r: int| 0 <= r < c.spec_nodes().len() && #[trigger] c.spec_nodes()[r].spec_path() == root@)
                && closure_consistent(c.spec_nodes()) && forall|i: int, j: int|
                0 <= i < j < c.spec_nodes().len() ==> parts_lt(
                    path_key(#[trigger] c.spec_nodes()[i].spec_path()),
                    path_key(#[trigger] c.spec_nodes()[j].spec_path()),
                )),
            resolver.spec_answers_fixed() ==> (res matches Ok(c) ==> nodes_resolved(resolver, c.spec_nodes(), node_keys(c.spec_nodes()))
                && nodes_reached(resolver, c.spec_root(), c.spec_nodes()) && nodes_inspected(resolver, c.spec_nodes())),
    {
        match validate_absolute_normalized(root.as_str()) {
            Ok(()) => {},
            Err(e) => return Err(e),
        }
        let root_metadata = match resolver.inspect(root.as_str()) {
            Ok(m) => m,
            Err(e) => return Err(e),
        };
        let ghost root_view = root@;
        let mut builder = ClosureBuilder::start(root, root_metadata);
        let ghost fixed = resolver.spec_answers_fixed();
        proof {
            assert(builder.spec_queue()[0].0 == root_view);
            assert(builder.key_placed(builder.spec_scheduled()[0]));
        }
        loop
            invariant
                builder.wf(),
                builder.covers(),
                builder.spec_pending() is None,
                builder.spec_root() == root_view,
                root_view == root@,
                absolute_normalized(root@),
                fixed == resolver.spec_answers_fixed(),
                fixed ==> nodes_resolved(resolver, builder.spec_nodes(), builder.spec_scheduled()),
                fixed ==> nodes_reached(resolver, root_view, builder.spec_nodes()),
                fixed ==> queue_reached(resolver, root_view, builder.spec_nodes(), builder.spec_queue(), None),
                fixed ==> nodes_inspected(resolver, builder.spec_nodes()),
                fixed ==> queue_inspected(resolver, builder.spec_queue()),
            ensures
                builder.wf(),
                builder.covers(),
                builder.spec_pending() is None,
                builder.spec_queue().len() == 0,
                builder.spec_root() == root_view,
                fixed ==> nodes_resolved(resolver, builder.spec_nodes(), builder.spec_scheduled()),
                fixed ==> nodes_reached(resolver, root_view, builder.spec_nodes()),
                fixed ==> nodes_inspected(resolver, builder.spec_nodes()),
            decreases usize::MAX - builder.spec_scheduled().len(), builder.spec_queue().len(),
        {
            let ghost b0 = builder;
            let step = builder.next_file();
            proof {
                if b0.spec_queue().len() > 0 && step is Ok && !(step matches Ok(ClosureStep::Done)) {
                    lemma_covers_next(b0, builder);
                }
            }
            let ghost src_ok = b0.spec_queue().len() > 0 ==> (b0.spec_queue().last().0 == root_view || reached_from(
                resolver,
                b0.spec_nodes(),
                b0.spec_queue().last().0,
            ));
            proof {
                if fixed && b0.spec_queue().len() > 0 {
                    lemma_queue_drop(resolver, root_view, b0.spec_nodes(), b0.spec_queue(), builder.spec_queue(), None);
                    assert forall|q: int| 0 <= q < builder.spec_queue().len() implies resolver.spec_inspect_answer(
                        (#[trigger] builder.spec_queue()[q]).0,
                    ) == Some(builder.spec_queue()[q].1) by {
                        assert(builder.spec_queue()[q] == b0.spec_queue()[q]);
                    }
                    assert(b0.spec_queue()[b0.spec_queue().len() - 1] == b0.spec_queue().last());
                }
            }
            let (path, metadata) = match step {
                Err(e) => return Err(e),
                Ok(ClosureStep::Done) => break,
                Ok(ClosureStep::Visited) => continue,
                Ok(ClosureStep::Next(path, metadata)) => (path, metadata),
            };
            let ghost s0 = builder.spec_scheduled().len();
            let ghost q0 = builder.spec_queue().len();
            let ghost nodes0 = builder.spec_nodes();
            proof {
                if fixed {
                    lemma_queue_drop(resolver, root_view, b0.spec_nodes(), b0.spec_queue(), builder.spec_queue(), Some((path@, metadata@)));
                }
            }
            match metadata.interpreter() {
                Some(interpreter) => {
                    let resolved = match resolver.resolve_interpreter(interpreter) {
                        Ok(r) => r,
                        Err(e) => return Err(e),
                    };
                    if !builder.is_scheduled(resolved.as_str()) {
                        let found = match resolver.inspect(resolved.as_str()) {
                            Ok(m) => m,
                            Err(e) => return Err(e),
                        };
                        let ghost b1 = builder;
                        let ghost rv = resolved@;
                        let ghost fv = found@;
                        builder.schedule(resolved, found);
                        proof {
                            lemma_covers_schedule(b1, builder, rv, fv);
                            if fixed {
                                lemma_nodes_grow(resolver, b1.spec_nodes(), b1.spec_scheduled(), path_key(rv));
                                lemma_queue_push(resolver, root_view, nodes0, b1.spec_queue(), (rv, fv), (path@, metadata@));
                                assert forall|q: int| 0 <= q < builder.spec_queue().len() implies resolver.spec_inspect_answer(
                                    (#[trigger] builder.spec_queue()[q]).0,
                                ) == Some(builder.spec_queue()[q].1) by {
                                    if q < b1.spec_queue().len() {
                                        assert(builder.spec_queue()[q] == b1.spec_queue()[q]);
                                    }
                                }
                            }
                            assert(builder.spec_scheduled()[b1.spec_scheduled().len() as int] == path_key(rv));
                        }
                    }
                },
                None => {},
            }
            assert(fixed ==> deps_resolved(resolver, path@, metadata@, 0, builder.spec_scheduled()));
            let mut k: usize = 0;
            while k < metadata.needed.len()
                invariant
                    builder.wf(),
                    builder.covers(),
                    builder.spec_pending() == Some(path@),
                    !builder.has_node_key(path_key(path@)),
                    metadata@.machine == builder.spec_expected(),
                    k <= metadata.needed@.len(),
                    metadata@.needed == strings_view(metadata.needed@),
                    builder.spec_scheduled().len() >= s0,
                    builder.spec_scheduled().len() - s0 == builder.spec_queue().len() - q0,
                    builder.spec_root() == root_view,
                    root_view == root@,
                    absolute_normalized(root@),
                    fixed == resolver.spec_answers_fixed(),
                    fixed ==> nodes_resolved(resolver, builder.spec_nodes(), builder.spec_scheduled()),
                    fixed ==> deps_resolved(resolver, path@, metadata@, k as int, builder.spec_scheduled()),
                    builder.spec_nodes() == nodes0,
                    fixed ==> queue_reached(resolver, root_view, nodes0, builder.spec_queue(), Some((path@, metadata@))),
                    fixed ==> queue_inspected(resolver, builder.spec_queue()),
                    fixed ==> nodes_inspected(resolver, nodes0),
                    fixed ==> resolver.spec_inspect_answer(path@) == Some(metadata@),
                decreases metadata.needed@.len() - k,
            {
                let resolved = match resolver.resolve_needed(path.as_str(), &metadata, metadata.needed[k].as_str()) {
                    Ok(r) => r,
                    Err(e) => return Err(e),
                };
                assert(metadata@.needed[k as int] == metadata.needed@[k as int]@);
                if !builder.is_scheduled(resolved.as_str()) {
                    let found = match resolver.inspect(resolved.as_str()) {
                        Ok(m) => m,
                        Err(e) => return Err(e),
                    };
                    let ghost b1 = builder;
                    let ghost rv = resolved@;
                    let ghost fv = found@;
                    builder.schedule(resolved, found);
                    proof {
                        lemma_covers_schedule(b1, builder, rv, fv);
                        assert(builder.spec_scheduled()[b1.spec_scheduled().len() as int] == path_key(rv));
                        if fixed {
                            lemma_nodes_grow(resolver, b1.spec_nodes(), b1.spec_scheduled(), path_key(rv));
                            lemma_deps_grow(resolver, path@, metadata@, k as int, b1.spec_scheduled(), path_key(rv));
                            assert(resolver.spec_needed_answer(path@, metadata@, metadata@.needed[k as int]) == Some(rv));
                            lemma_queue_push(resolver, root_view, nodes0, b1.spec_queue(), (rv, fv), (path@, metadata@));
                            assert forall|q: int| 0 <= q < builder.spec_queue().len() implies resolver.spec_inspect_answer(
                                (#[trigger] builder.spec_queue()[q]).0,
                            ) == Some(builder.spec_queue()[q].1) by {
                                if q < b1.spec_queue().len() {
                                    assert(builder.spec_queue()[q] == b1.spec_queue()[q]);
                                }
                            }
                        }
                    }
                }
                k = k + 1;
            }
            let ghost b2 = builder;
            let ghost pv = path@;
            let ghost mv = metadata@;
            builder.add_node(path, metadata);
            proof {
                let kk = choose|kk: int| 0 <= kk < builder.spec_nodes().len() && #[trigger] builder.spec_nodes()[kk].spec_path() == pv
                    && builder.spec_nodes()[kk].spec_metadata() == mv
                    && builder.spec_nodes() == b2.spec_nodes().insert(kk, builder.spec_nodes()[kk]);
                lemma_covers_add(b2, builder, pv, kk);
                if fixed {
                    lemma_nodes_after_add(resolver, b2.spec_nodes(), builder.spec_nodes(), kk, builder.spec_scheduled());
                    lemma_reached_after_add(resolver, root_view, b2.spec_nodes(), builder.spec_nodes(), kk, builder.spec_queue());
                    lemma_inspected_after_add(resolver, b2.spec_nodes(), builder.spec_nodes(), kk);
                }
            }
        }
        proof {
            if fixed {
                lemma_keys_placed_in_nodes(resolver, builder);
            }
        }
        let closure = builder.finish();
        Ok(closure)
    }

    pub fn root(&self) -> (res: &str)
        ensures
            res@ == self.spec_root(),
    {
        self.root.as_str()
    }

    pub fn nodes(&self) -> (res: &[ElfDependencyNode])
        ensures
            res@ == self.spec_nodes(),
    {
        self.nodes.as_slice()
    }

    pub fn len(&self) -> (res: usize)
        ensures
            res == self.spec_nodes().len(),
    {
        self.nodes.len()
    }

    pub fn is_empty(&self) -> (res: bool)
        ensures
            res == (self.spec_nodes().len() == 0),
    {
        self.nodes.len() == 0
    }
}


/// What [`ClosureBuilder::next_file`] found at the end of the queue.
pub enum ClosureStep {
    /// The queue is empty.
    Done,
    /// The file is already a node.
    Visited,
    /// A new file, to be resolved and then added as a node.
    Next(String, ElfMetadata),
}

/// The state of a dependency closure being collected: the nodes so far (in
/// path order), the keys of every path scheduled, and the files waiting to
/// be visited (taken from the end). `pending` is the file taken out and not
/// added yet.
pub struct ClosureBuilder {
    root: String,
    expected: ElfMachine,
    nodes: Vec<ElfDependencyNode>,
    node_parts: Vec<Vec<ExecPart>>,
    scheduled: Vec<Vec<ExecPart>>,
    queue: Vec<(String, ElfMetadata)>,
    pending: Ghost<Option<Seq<char>>>,
}

impl ClosureBuilder {
    pub closed spec fn spec_root(&self) -> Seq<char> {
        self.root@
    }

    pub closed spec fn spec_expected(&self) -> ElfMachine {
        self.expected
    }

    pub closed spec fn spec_nodes(&self) -> Seq<ElfDependencyNode> {
        self.nodes@
    }

    pub closed spec fn spec_scheduled(&self) -> Seq<Seq<PathPart>> {
        self.scheduled.deep_view()
    }

    pub closed spec fn spec_queue(&self) -> Seq<(Seq<char>, ElfView)> {
        Seq::new(self.queue@.len(), |i: int| (self.queue@[i].0@, self.queue@[i].1@))
    }

    pub closed spec fn spec_pending(&self) -> Option<Seq<char>> {
        self.pending@
    }

    /// Some node's path has the key `key`.
    pub open spec fn has_node_key(&self, key: Seq<PathPart>) -> bool {
        exists|i: int| 0 <= i < self.spec_nodes().len() && path_key(self.spec_nodes()[i].spec_path()) == key
    }

    /// `key` is a node's, a queued file's or the pending file's.
    pub open spec fn key_placed(&self, key: Seq<PathPart>) -> bool {
        ||| self.has_node_key(key)
        ||| exists|q: int| 0 <= q < self.spec_queue().len() && path_key(#[trigger] self.spec_queue()[q].0) == key
        ||| (self.spec_pending() matches Some(p) && path_key(p) == key)
    }

    /// Every key scheduled so far is placed: nothing scheduled is lost.
    pub open spec fn covers(&self) -> bool {
        forall|s: int| 0 <= s < self.spec_scheduled().len() ==> self.key_placed(#[trigger] self.spec_scheduled()[s])
    }

    /// The builder's invariant: nodes in strictly ascending path order, all
    /// for the root's machine, and the root among them once anything was
    /// added (before that, the root is the only file queued, or the one
    /// taken out).
    pub closed spec fn wf(&self) -> bool {
        &&& self.scheduled.deep_view().len() == self.scheduled@.len()
        &&& self.scheduled@.len() <= usize::MAX
        &&& self.node_parts@.len() == self.nodes@.len()
        &&& forall|i: int| 0 <= i < self.nodes@.len() ==> #[trigger] self.node_parts@[i].deep_view() == path_key(self.nodes@[i].spec_path())
        &&& forall|i: int| 0 <= i < self.nodes@.len() ==> #[trigger] self.nodes@[i].spec_metadata().machine == self.expected
        &&& forall|i: int, j: int|
            0 <= i < self.nodes@.len() && 0 <= j < self.nodes@.len() && i != j ==> path_key(self.nodes@[i].spec_path())
                != path_key(self.nodes@[j].spec_path())
        &&& self.nodes@.len() > 0 ==> exists|r: int| 0 <= r < self.nodes@.len() && #[trigger] self.nodes@[r].spec_path() == self.root@
        &&& self.nodes@.len() == 0 ==> ((self.pending@ is None && self.queue@.len() == 1 && self.queue@[0].0@ == self.root@
            && self.queue@[0].1@.machine == self.expected) || self.pending@ == Some(self.root@))
        &&& forall|i: int, j: int|
            0 <= i < j < self.nodes@.len() ==> parts_lt(
                path_key(#[trigger] self.nodes@[i].spec_path()),
                path_key(#[trigger] self.nodes@[j].spec_path()),
            )
    }

    /// Starts with the root scheduled and queued, and no node.
    pub fn start(root: String, root_metadata: ElfMetadata) -> (res: ClosureBuilder)
        ensures
            res.wf(),
            res.spec_root() == root@,
            res.spec_expected() == root_metadata@.machine,
            res.spec_nodes().len() == 0,
            res.spec_scheduled() == seq![path_key(root@)],
            res.spec_queue() == seq![(root@, root_metadata@)],
            res.spec_pending() is None,
    {
        let expected = root_metadata.machine();
        let mut scheduled: Vec<Vec<ExecPart>> = Vec::new();
        scheduled.push(path_parts_of(root.as_str().as_bytes()));
        let mut queue: Vec<(String, ElfMetadata)> = Vec::new();
        queue.push((root.clone(), root_metadata));
        let res = ClosureBuilder {
            root,
            expected,
            nodes: Vec::new(),
            node_parts: Vec::new(),
            scheduled,
            queue,
            pending: Ghost(None),
        };
        assert(res.spec_scheduled() =~= seq![path_key(res.root@)]);
        assert(res.spec_queue() =~= seq![(res.root@, root_metadata@)]);
        res
    }

    /// Whether a path with the key of `path` was ever scheduled.
    pub fn is_scheduled(&self, path: &str) -> (res: bool)
        ensures
            res == self.spec_scheduled().contains(path_key(path@)),
    {
        let p = path_parts_of(path.as_bytes());
        let res = contains_parts(&self.scheduled, &p);
        proof {
            if res {
                let j = choose|j: int| 0 <= j < self.scheduled@.len() && self.scheduled@[j].deep_view() == p.deep_view();
                assert(self.spec_scheduled()[j] == path_key(path@));
            } else if self.spec_scheduled().contains(path_key(path@)) {
                let j = choose|j: int| 0 <= j < self.spec_scheduled().len() && self.spec_scheduled()[j] == path_key(path@);
                assert(self.scheduled@[j].deep_view() == p.deep_view());
            }
        }
        res
    }

    /// Schedules a file the resolver reported, to be visited later.
    pub fn schedule(&mut self, path: String, metadata: ElfMetadata)
        requires
            old(self).wf(),
            old(self).spec_pending() is Some,
            !old(self).spec_scheduled().contains(path_key(path@)),
        ensures
            final(self).wf(),
            final(self).spec_scheduled() == old(self).spec_scheduled().push(path_key(path@)),
            final(self).spec_queue() == old(self).spec_queue().push((path@, metadata@)),
            final(self).spec_nodes() == old(self).spec_nodes(),
            final(self).spec_pending() == old(self).spec_pending(),
            final(self).spec_expected() == old(self).spec_expected(),
            final(self).spec_root() == old(self).spec_root(),
    {
        let ghost before = self.scheduled.deep_view();
        let ghost qb = self.spec_queue();
        let p = path_parts_of(path.as_str().as_bytes());
        self.scheduled.push(p);
        let _count = self.scheduled.len();
        self.queue.push((path, metadata));
        assert(self.scheduled.deep_view() =~= before.push(path_key(path@)));
        assert(self.spec_queue() =~= qb.push((path@, metadata@)));
    }

    /// Takes the last queued file: reports an empty queue, a file that is
    /// already a node, a file for another machine than the root's (as
    /// `ArchitectureMismatch`), or a new file, which becomes pending.
    #[verifier::spinoff_prover]
    pub fn next_file(&mut self) -> (res: Result<ClosureStep, ElfError>)
        requires
            old(self).wf(),
            old(self).spec_pending() is None,
        ensures
            final(self).wf(),
            final(self).spec_nodes() == old(self).spec_nodes(),
            final(self).spec_scheduled() == old(self).spec_scheduled(),
            final(self).spec_expected() == old(self).spec_expected(),
            final(self).spec_root() == old(self).spec_root(),
            old(self).spec_queue().len() == 0 ==> (res matches Ok(ClosureStep::Done) && final(self).spec_queue() == old(self).spec_queue()
                && final(self).spec_pending() is None),
            old(self).spec_queue().len() > 0 ==> {
                let (p, m) = old(self).spec_queue().last();
                &&& final(self).spec_queue() == old(self).spec_queue().drop_last()
                &&& (old(self).has_node_key(path_key(p)) ==> (res matches Ok(ClosureStep::Visited)
                    && final(self).spec_pending() is None))
                &&& (!old(self).has_node_key(path_key(p)) && m.machine != old(self).spec_expected() ==> (res matches Err(
                    ElfError::ArchitectureMismatch { expected, actual, path },
                ) && expected == old(self).spec_expected() && actual == m.machine && path@ == p))
                &&& (!old(self).has_node_key(path_key(p)) && m.machine == old(self).spec_expected() ==> (res matches Ok(
                    ClosureStep::Next(path, metadata),
                ) && path@ == p && metadata@ == m && final(self).spec_pending() == Some(p)))
            },
    {
        if self.queue.len() == 0 {
            return Ok(ClosureStep::Done);
        }
        let ghost qb = self.spec_queue();
        let ghost queue_before = self.queue@;
        let (path, metadata) = self.queue.pop().unwrap();
        proof {
            assert(self.spec_queue() =~= qb.drop_last());
            assert((path, metadata) == queue_before.last());
            assert(qb.last() == (path@, metadata@));
            if self.nodes@.len() == 0 {
                assert(queue_before.len() == 1);
                assert(path@ == self.root@);
                assert(metadata@.machine == self.expected);
            }
        }
        let p = path_parts_of(path.as_str().as_bytes());
        if contains_parts(&self.node_parts, &p) {
            proof {
                let j = choose|j: int| 0 <= j < self.node_parts@.len() && self.node_parts@[j].deep_view() == p.deep_view();
                assert(path_key(self.nodes@[j].spec_path()) == path_key(path@));
            }
            return Ok(ClosureStep::Visited);
        }
        proof {
            if self.has_node_key(path_key(path@)) {
                let j = choose|j: int| 0 <= j < self.nodes@.len() && path_key(self.nodes@[j].spec_path()) == path_key(path@);
                assert(self.node_parts@[j].deep_view() == p.deep_view());
            }
        }
        assert(old(self).spec_queue().last() == (path@, metadata@));
        assert(!self.has_node_key(path_key(path@)));
        assert(self.spec_nodes() == old(self).spec_nodes());
        if metadata.machine() != self.expected {
            return Err(ElfError::ArchitectureMismatch { expected: self.expected, actual: metadata.machine(), path });
        }
        self.pending = Ghost(Some(path@));
        Ok(ClosureStep::Next(path, metadata))
    }

    /// Adds the pending file as a node, in path order.
    #[verifier::rlimit(60)]
    #[verifier::spinoff_prover]
    pub fn add_node(&mut self, path: String, metadata: ElfMetadata)
        requires
            old(self).wf(),
            old(self).spec_pending() == Some(path@),
            !old(self).has_node_key(path_key(path@)),
            metadata@.machine == old(self).spec_expected(),
        ensures
            final(self).wf(),
            final(self).spec_pending() is None,
            final(self).spec_nodes().len() == old(self).spec_nodes().len() + 1,
            exists|k: int| 0 <= k < final(self).spec_nodes().len() && #[trigger] final(self).spec_nodes()[k].spec_path() == path@
                && final(self).spec_nodes()[k].spec_metadata() == metadata@
                && final(self).spec_nodes() == old(self).spec_nodes().insert(k, final(self).spec_nodes()[k]),
            final(self).spec_scheduled() == old(self).spec_scheduled(),
            final(self).spec_queue() == old(self).spec_queue(),
            final(self).spec_expected() == old(self).spec_expected(),
            final(self).spec_root() == old(self).spec_root(),
    {
        let p = path_parts_of(path.as_str().as_bytes());
        assert(p.deep_view() == path_key(path@));
        proof {
            assert forall|j: int| 0 <= j < self.node_parts@.len() implies self.node_parts@[j].deep_view() != p.deep_view() by {
                if self.node_parts@[j].deep_view() == p.deep_view() {
                    assert(self.node_parts@[j].deep_view() == path_key(self.nodes@[j].spec_path()));
                    assert(path_key(self.spec_nodes()[j].spec_path()) == path_key(path@));
                    assert(self.has_node_key(path_key(path@)));
                }
            }
        }
        let mut k: usize = 0;
        while k < self.node_parts.len() && parts_less(&self.node_parts[k], &p)
            invariant
                k <= self.node_parts@.len(),
                forall|j: int| 0 <= j < k ==> parts_lt(#[trigger] self.node_parts@[j].deep_view(), p.deep_view()),
            decreases self.node_parts@.len() - k,
        {
            k = k + 1;
        }
        let ghost before_nodes = self.nodes@;
        let ghost before_parts = self.node_parts@;
        let ghost key = p.deep_view();
        let ghost was_empty = self.nodes@.len() == 0;
        let ghost path_view = path@;
        let ghost meta_view = metadata@;
        self.nodes.insert(k, ElfDependencyNode { path, metadata });
        self.node_parts.insert(k, p);
        proof {
            let x = self.nodes@[k as int];
            assert(path_key(x.spec_path()) == key);
            assert forall|i: int| 0 <= i < self.nodes@.len() implies #[trigger] self.node_parts@[i].deep_view() == path_key(self.nodes@[i].spec_path()) by {
                if i < k {
                    assert(self.nodes@[i] == before_nodes[i]);
                    assert(self.node_parts@[i] == before_parts[i]);
                } else if i > k {
                    assert(self.nodes@[i] == before_nodes[i - 1]);
                    assert(self.node_parts@[i] == before_parts[i - 1]);
                }
            }
            assert forall|i: int, j: int|
                0 <= i < self.nodes@.len() && 0 <= j < self.nodes@.len() && i != j implies path_key(self.nodes@[i].spec_path())
                    != path_key(self.nodes@[j].spec_path()) by {
                if i != k && j != k {
                    let oi = if i < k { i } else { i - 1 };
                    let oj = if j < k { j } else { j - 1 };
                    assert(self.nodes@[i] == before_nodes[oi]);
                    assert(self.nodes@[j] == before_nodes[oj]);
                } else if i == k {
                    let oj = if j < k { j } else { j - 1 };
                    assert(self.nodes@[j] == before_nodes[oj]);
                    assert(before_parts[oj].deep_view() == path_key(before_nodes[oj].spec_path()));
                } else {
                    let oi = if i < k { i } else { i - 1 };
                    assert(self.nodes@[i] == before_nodes[oi]);
                    assert(before_parts[oi].deep_view() == path_key(before_nodes[oi].spec_path()));
                }
            }
            assert forall|i: int| 0 <= i < self.nodes@.len() implies #[trigger] self.nodes@[i].spec_metadata().machine == self.expected by {
                if i < k {
                    assert(self.nodes@[i] == before_nodes[i]);
                } else if i > k {
                    assert(self.nodes@[i] == before_nodes[i - 1]);
                }
            }
            assert forall|i: int, j: int|
                0 <= i < j < self.nodes@.len() implies parts_lt(
                    path_key(#[trigger] self.nodes@[i].spec_path()),
                    path_key(#[trigger] self.nodes@[j].spec_path()),
                ) by {
                if j < k {
                    assert(self.nodes@[i] == before_nodes[i] && self.nodes@[j] == before_nodes[j]);
                } else if j == k {
                    assert(self.nodes@[i] == before_nodes[i]);
                    assert(before_parts[i].deep_view() == path_key(before_nodes[i].spec_path()));
                } else if i < k {
                    assert(self.nodes@[i] == before_nodes[i] && self.nodes@[j] == before_nodes[j - 1]);
                } else if i == k {
                    let kk = k as int;
                    assert(self.nodes@[j] == before_nodes[j - 1]);
                    assert(kk < before_nodes.len());
                    let ok = path_key(before_nodes[kk].spec_path());
                    assert(before_parts[kk].deep_view() == ok);
                    assert(!parts_lt(ok, key));
                    assert(ok != key);
                    lemma_parts_order(ok, key, ok);
                    if j - 1 > kk {
                        lemma_parts_order(key, ok, path_key(before_nodes[j - 1].spec_path()));
                    }
                } else {
                    assert(self.nodes@[i] == before_nodes[i - 1] && self.nodes@[j] == before_nodes[j - 1]);
                }
            }
            if was_empty {
                assert(self.nodes@[0].spec_path() == self.root@);
            } else {
                let r = choose|r: int| 0 <= r < before_nodes.len() && #[trigger] before_nodes[r].spec_path() == self.root@;
                if r < k {
                    assert(self.nodes@[r] == before_nodes[r]);
                } else {
                    assert(self.nodes@[r + 1] == before_nodes[r]);
                }
            }
        }
        self.pending = Ghost(None);
        proof {
            assert(self.nodes@ =~= before_nodes.insert(k as int, self.nodes@[k as int]));
            assert(self.spec_nodes()[k as int].spec_path() == path_view);
            assert(self.spec_nodes()[k as int].spec_metadata() == meta_view);
            assert(self.spec_nodes() == before_nodes.insert(k as int, self.spec_nodes()[k as int]));
        }
    }

    /// The closure, once the queue is empty and nothing is pending.
    pub fn finish(self) -> (res: ElfDependencyClosure)
        requires
            self.wf(),
            self.spec_queue().len() == 0,
            self.spec_pending() is None,
        ensures
            res.spec_root() == self.spec_root(),
            res.spec_nodes() == self.spec_nodes(),
            res.spec_nodes().len() >= 1,
            exists|r: int| 0 <= r < res.spec_nodes().len() && #[trigger] res.spec_nodes()[r].spec_path() == res.spec_root(),
            closure_consistent(res.spec_nodes()),
            forall|i: int, j: int|
                0 <= i < j < res.spec_nodes().len() ==> parts_lt(
                    path_key(#[trigger] res.spec_nodes()[i].spec_path()),
                    path_key(#[trigger] res.spec_nodes()[j].spec_path()),
                ),
    {
        assert(self.queue@.len() == 0);
        assert(self.nodes@.len() > 0);
        assert(self.nodes@[0].spec_metadata().machine == self.expected);
        let res = ElfDependencyClosure { root: self.root, nodes: self.nodes };
        assert(closure_consistent(res.spec_nodes()));
        res
    }
}

proof fn lemma_covers_next(a: ClosureBuilder, b: ClosureBuilder)
    requires
        a.covers(),
        a.spec_pending() is None,
        a.spec_queue().len() > 0,
        b.spec_scheduled() == a.spec_scheduled(),
        b.spec_nodes() == a.spec_nodes(),
        b.spec_queue() == a.spec_queue().drop_last(),
        a.has_node_key(path_key(a.spec_queue().last().0)) || b.spec_pending() == Some(a.spec_queue().last().0),
    ensures
        b.covers(),
{
    assert forall|s: int| 0 <= s < b.spec_scheduled().len() implies b.key_placed(#[trigger] b.spec_scheduled()[s]) by {
        let x = a.spec_scheduled()[s];
        assert(a.key_placed(x));
        if a.has_node_key(x) {
            assert(b.has_node_key(x));
        } else {
            let q = choose|q: int| 0 <= q < a.spec_queue().len() && path_key(#[trigger] a.spec_queue()[q].0) == x;
            if q < b.spec_queue().len() {
                assert(b.spec_queue()[q] == a.spec_queue()[q]);
            } else if a.has_node_key(x) {
            } else {
                assert(a.spec_queue()[q] == a.spec_queue().last());
            }
        }
    }
}

proof fn lemma_covers_schedule(a: ClosureBuilder, b: ClosureBuilder, path: Seq<char>, m: ElfView)
    requires
        a.covers(),
        b.spec_scheduled() == a.spec_scheduled().push(path_key(path)),
        b.spec_queue() == a.spec_queue().push((path, m)),
        b.spec_nodes() == a.spec_nodes(),
        b.spec_pending() == a.spec_pending(),
    ensures
        b.covers(),
{
    assert forall|s: int| 0 <= s < b.spec_scheduled().len() implies b.key_placed(#[trigger] b.spec_scheduled()[s]) by {
        let x = b.spec_scheduled()[s];
        if s == a.spec_scheduled().len() {
            assert(b.spec_queue()[a.spec_queue().len() as int].0 == path);
        } else {
            assert(a.spec_scheduled()[s] == x);
            assert(a.key_placed(x));
            if a.has_node_key(x) {
                assert(b.has_node_key(x));
            } else if exists|q: int| 0 <= q < a.spec_queue().len() && path_key(#[trigger] a.spec_queue()[q].0) == x {
                let q = choose|q: int| 0 <= q < a.spec_queue().len() && path_key(#[trigger] a.spec_queue()[q].0) == x;
                assert(b.spec_queue()[q] == a.spec_queue()[q]);
            }
        }
    }
}

proof fn lemma_covers_add(a: ClosureBuilder, b: ClosureBuilder, path: Seq<char>, k: int)
    requires
        a.covers(),
        a.spec_pending() == Some(path),
        b.spec_pending() is None,
        0 <= k < b.spec_nodes().len(),
        b.spec_nodes().len() == a.spec_nodes().len() + 1,
        b.spec_nodes()[k].spec_path() == path,
        b.spec_nodes() == a.spec_nodes().insert(k, b.spec_nodes()[k]),
        b.spec_scheduled() == a.spec_scheduled(),
        b.spec_queue() == a.spec_queue(),
    ensures
        b.covers(),
{
    assert forall|s: int| 0 <= s < b.spec_scheduled().len() implies b.key_placed(#[trigger] b.spec_scheduled()[s]) by {
        let x = a.spec_scheduled()[s];
        assert(a.key_placed(x));
        if a.has_node_key(x) {
            let i = choose|i: int| 0 <= i < a.spec_nodes().len() && path_key(a.spec_nodes()[i].spec_path()) == x;
            let v = b.spec_nodes()[k];
            a.spec_nodes().insert_ensures(k, v);
            if i < k {
                assert(a.spec_nodes().insert(k, v)[i] == a.spec_nodes()[i]);
                assert(b.spec_nodes()[i] == a.spec_nodes()[i]);
            } else {
                assert(a.spec_nodes().insert(k, v)[i + 1] == a.spec_nodes()[i]);
                assert(b.spec_nodes()[i + 1] == a.spec_nodes()[i]);
            }
            assert(b.has_node_key(x));
        } else if exists|q: int| 0 <= q < a.spec_queue().len() && path_key(#[trigger] a.spec_queue()[q].0) == x {
        } else {
            assert(path_key(b.spec_nodes()[k].spec_path()) == x);
            assert(b.has_node_key(x));
        }
    }
}

proof fn lemma_nodes_after_add<R: ElfDependencyResolver>(
    resolver: &R,
    a: Seq<ElfDependencyNode>,
    b: Seq<ElfDependencyNode>,
    k: int,
    keys: Seq<Seq<PathPart>>,
)
    requires
        nodes_resolved(resolver, a, keys),
        0 <= k < b.len(),
        b.len() == a.len() + 1,
        b == a.insert(k, b[k]),
        deps_resolved(resolver, b[k].spec_path(), b[k].spec_metadata(), b[k].spec_metadata().needed.len() as int, keys),
    ensures
        nodes_resolved(resolver, b, keys),
{
    assert forall|i: int| 0 <= i < b.len() implies deps_resolved(
        resolver,
        #[trigger] b[i].spec_path(),
        b[i].spec_metadata(),
        b[i].spec_metadata().needed.len() as int,
        keys,
    ) by {
        a.insert_ensures(k, b[k]);
        if i < k {
            assert(a.insert(k, b[k])[i] == a[i]);
            assert(b[i] == a[i]);
        } else if i > k {
            assert(a.insert(k, b[k])[i] == a[i - 1]);
            assert(b[i] == a[i - 1]);
            assert(a[i - 1].spec_path() == b[i].spec_path());
        }
    }
}

proof fn lemma_keys_placed_in_nodes<R: ElfDependencyResolver>(resolver: &R, bld: ClosureBuilder)
    requires
        bld.covers(),
        bld.spec_queue().len() == 0,
        bld.spec_pending() is None,
        nodes_resolved(resolver, bld.spec_nodes(), bld.spec_scheduled()),
    ensures
        nodes_resolved(resolver, bld.spec_nodes(), node_keys(bld.spec_nodes())),
{
    let nodes = bld.spec_nodes();
    let keys = bld.spec_scheduled();
    let nk = node_keys(nodes);
    assert forall|x: Seq<PathPart>| keys.contains(x) implies nk.contains(x) by {
        let s = choose|s: int| 0 <= s < keys.len() && keys[s] == x;
        assert(bld.key_placed(keys[s]));
        let i = choose|i: int| 0 <= i < nodes.len() && path_key(nodes[i].spec_path()) == x;
        assert(nk[i] == x);
    }
    assert forall|i: int| 0 <= i < nodes.len() implies deps_resolved(
        resolver,
        #[trigger] nodes[i].spec_path(),
        nodes[i].spec_metadata(),
        nodes[i].spec_metadata().needed.len() as int,
        nk,
    ) by {
        let m = nodes[i].spec_metadata();
        assert(deps_resolved(resolver, nodes[i].spec_path(), m, m.needed.len() as int, keys));
        assert forall|d: int| 0 <= d < m.needed.len() implies (#[trigger] resolver.spec_needed_answer(nodes[i].spec_path(), m, m.needed[d]) matches Some(p) && nk.contains(path_key(p))) by {
            assert(resolver.spec_needed_answer(nodes[i].spec_path(), m, m.needed[d]) matches Some(p) && keys.contains(path_key(p)));
        }
    }
}

/// A trusted mapping from a logical path prefix to a physical directory.
#[derive(Clone, Debug, PartialEq, Eq)]
pub struct TrustedElfSource {
    logical_prefix: String,
    physical_root: String,
}

impl TrustedElfSource {
    pub closed spec fn spec_logical_prefix(&self) -> Seq<char> {
        self.logical_prefix@
    }

    pub closed spec fn spec_physical_root(&self) -> Seq<char> {
        self.physical_root@
    }

    /// Both paths must be absolute and free of `.` and `..` components.
    pub fn new(logical_prefix: String, physical_root: String) -> (res: Result<TrustedElfSource, ElfError>)
        ensures
            res is Ok <==> absolute_normalized(logical_prefix@) && absolute_normalized(physical_root@),
            res matches Ok(s) ==> s.spec_logical_prefix() == logical_prefix@ && s.spec_physical_root()
                == physical_root@,
            res matches Err(e) ==> e is UnsupportedDependencyPath,
    {
        match validate_absolute_normalized(logical_prefix.as_str()) {
            Ok(()) => {},
            Err(e) => return Err(e),
        }
        match validate_absolute_normalized(physical_root.as_str()) {
            Ok(()) => {},
            Err(e) => return Err(e),
        }
        Ok(TrustedElfSource { logical_prefix, physical_root })
    }

    pub fn logical_prefix(&self) -> (res: &str)
        ensures
            res@ == self.spec_logical_prefix(),
    {
        self.logical_prefix.as_str()
    }

    pub fn physical_root(&self) -> (res: &str)
        ensures
            res@ == self.spec_physical_root(),
    {
        self.physical_root.as_str()
    }
}

} // verus!
