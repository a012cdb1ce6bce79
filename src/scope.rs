//! Scopes that settings apply to, and their string syntax.
//!
//! Syntax: `@main`, `@<int>`, `@[cpu_type=<int>|<name>]`, `<path>`,
//! `<path>@<int>`, `<path>@[cpu_type=<int>|<name>]`, with the names `arm`,
//! `arm64`, `arm64_32` and `x86_64`.
use crate::error::AppleCodesignError;
use crate::text::{
    bounded_decimal, chars_of, decimal_chars, lemma_decimal_round_trip, parse_unsigned,
    push_decimal, string_of, all_digits, is_digit, decimal_value,
};
use vstd::prelude::*;

verus! {

/// A Mach-O CPU type.
pub type CpuType = u32;

pub const CPU_TYPE_X86_64: u32 = 16777223;

pub const CPU_TYPE_ARM: u32 = 12;

pub const CPU_TYPE_ARM64: u32 = 16777228;

pub const CPU_TYPE_ARM64_32: u32 = 33554444;

/// The target a setting applies to.
///
/// Variants are declared from the widest to the most granular.
#[derive(Clone, Debug, Eq, Hash, Ord, PartialEq, PartialOrd)]
pub enum SettingsScope {
    /// The main entity being signed.
    Main,
    /// An entity at a path relative to the main entity.
    Path(String),
    /// A slice of a fat binary, by its 0-based index.
    MultiArchIndex(usize),
    /// A slice of a fat binary, by its CPU type.
    MultiArchCpuType(CpuType),
    /// A slice, by index, of the fat binary at a path.
    PathMultiArchIndex(String, usize),
    /// A slice, by CPU type, of the fat binary at a path.
    PathMultiArchCpuType(String, CpuType),
}

/// The mathematical value of a [SettingsScope].
pub enum ScopeKey {
    Main,
    Path(Seq<char>),
    MultiArchIndex(usize),
    MultiArchCpuType(u32),
    PathMultiArchIndex(Seq<char>, usize),
    PathMultiArchCpuType(Seq<char>, u32),
}

impl View for SettingsScope {
    type V = ScopeKey;

    open spec fn view(&self) -> ScopeKey {
        match self {
            SettingsScope::Main => ScopeKey::Main,
            SettingsScope::Path(p) => ScopeKey::Path(p@),
            SettingsScope::MultiArchIndex(i) => ScopeKey::MultiArchIndex(*i),
            SettingsScope::MultiArchCpuType(c) => ScopeKey::MultiArchCpuType(*c),
            SettingsScope::PathMultiArchIndex(p, i) => ScopeKey::PathMultiArchIndex(p@, *i),
            SettingsScope::PathMultiArchCpuType(p, c) => ScopeKey::PathMultiArchCpuType(p@, *c),
        }
    }
}

/// What follows an `@`: a slice index or a CPU type.
pub enum AtTarget {
    Index(usize),
    Cpu(u32),
}

pub open spec fn has_no(s: Seq<char>, c: char) -> bool {
    forall|i: int| 0 <= i < s.len() ==> #[trigger] s[i] != c
}

/// `k` is the position of the last `c` in `s`.
pub open spec fn is_last_index(s: Seq<char>, k: int, c: char) -> bool {
    0 <= k < s.len() && s[k] == c && has_no(s.subrange(k + 1, s.len() as int), c)
}

pub open spec fn last_index_of(s: Seq<char>, c: char) -> Option<int> {
    if exists|k: int| is_last_index(s, k, c) {
        Some(choose|k: int| is_last_index(s, k, c))
    } else {
        None
    }
}

pub open spec fn main_chars() -> Seq<char> {
    seq!['@', 'm', 'a', 'i', 'n']
}

pub open spec fn cpu_type_key() -> Seq<char> {
    seq!['c', 'p', 'u', '_', 't', 'y', 'p', 'e']
}

/// The CPU type that a recognised name stands for.
pub open spec fn cpu_type_named(v: Seq<char>) -> Option<u32> {
    if v == seq!['a', 'r', 'm'] {
        Some(CPU_TYPE_ARM)
    } else if v == seq!['a', 'r', 'm', '6', '4'] {
        Some(CPU_TYPE_ARM64)
    } else if v == seq!['a', 'r', 'm', '6', '4', '_', '3', '2'] {
        Some(CPU_TYPE_ARM64_32)
    } else if v == seq!['x', '8', '6', '_', '6', '4'] {
        Some(CPU_TYPE_X86_64)
    } else {
        None
    }
}

/// The value of `<key>=<value>` inside `@[...]`.
pub open spec fn spec_parse_key_value(v: Seq<char>) -> Result<AtTarget, ()> {
    match last_index_of(v, '=') {
        Some(k) => if has_no(v.subrange(0, k), '=') && v.subrange(0, k) == cpu_type_key() {
            let value = v.subrange(k + 1, v.len() as int);
            match cpu_type_named(value) {
                Some(c) => Ok(AtTarget::Cpu(c)),
                None => match bounded_decimal(value, u32::MAX as nat) {
                    Some(n) => Ok(AtTarget::Cpu(n as u32)),
                    None => Err(()),
                },
            }
        } else {
            Err(())
        },
        None => Err(()),
    }
}

/// The value of the expression after an `@`.
pub open spec fn spec_parse_at_expr(e: Seq<char>) -> Result<AtTarget, ()> {
    match bounded_decimal(e, usize::MAX as nat) {
        Some(n) => Ok(AtTarget::Index(n as usize)),
        None => if e.len() >= 2 && e[0] == '[' && e.last() == ']' {
            spec_parse_key_value(e.subrange(1, e.len() - 1))
        } else {
            Err(())
        },
    }
}

/// The scope that a string denotes, if any.
pub open spec fn spec_parse_scope(s: Seq<char>) -> Result<ScopeKey, ()> {
    if s == main_chars() {
        Ok(ScopeKey::Main)
    } else if s.len() > 0 && s[0] == '@' {
        match spec_parse_at_expr(s.subrange(1, s.len() as int)) {
            Ok(AtTarget::Index(i)) => Ok(ScopeKey::MultiArchIndex(i)),
            Ok(AtTarget::Cpu(c)) => Ok(ScopeKey::MultiArchCpuType(c)),
            Err(()) => Err(()),
        }
    } else {
        match last_index_of(s, '@') {
            None => Ok(ScopeKey::Path(s)),
            Some(k) => {
                let path = s.subrange(0, k);
                match spec_parse_at_expr(s.subrange(k + 1, s.len() as int)) {
                    Ok(AtTarget::Index(i)) => Ok(ScopeKey::PathMultiArchIndex(path, i)),
                    Ok(AtTarget::Cpu(c)) => Ok(ScopeKey::PathMultiArchCpuType(path, c)),
                    Err(()) => Err(()),
                }
            },
        }
    }
}

pub open spec fn cpu_suffix(c: u32) -> Seq<char> {
    seq!['@', '['] + cpu_type_key() + seq!['='] + decimal_chars(c as nat) + seq![']']
}

pub open spec fn index_suffix(i: usize) -> Seq<char> {
    seq!['@'] + decimal_chars(i as nat)
}

/// The canonical string form of a scope.
pub open spec fn spec_format_scope(k: ScopeKey) -> Seq<char> {
    match k {
        ScopeKey::Main => main_chars(),
        ScopeKey::Path(p) => p,
        ScopeKey::MultiArchIndex(i) => index_suffix(i),
        ScopeKey::MultiArchCpuType(c) => cpu_suffix(c),
        ScopeKey::PathMultiArchIndex(p, i) => p + index_suffix(i),
        ScopeKey::PathMultiArchCpuType(p, c) => p + cpu_suffix(c),
    }
}

/// A scope whose canonical string reads back as itself: a path is not
/// empty, does not start with `@`, and holds no `@` where nothing follows it.
pub open spec fn is_canonical(k: ScopeKey) -> bool {
    match k {
        ScopeKey::Path(p) => has_no(p, '@'),
        ScopeKey::PathMultiArchIndex(p, _) => p.len() > 0 && p[0] != '@',
        ScopeKey::PathMultiArchCpuType(p, _) => p.len() > 0 && p[0] != '@',
        _ => true,
    }
}


proof fn lemma_last_index_unique(s: Seq<char>, k: int, c: char)
    requires
        is_last_index(s, k, c),
    ensures
        last_index_of(s, c) == Some(k),
{
    let k2 = choose|k2: int| is_last_index(s, k2, c);
    if k2 < k {
        assert(s.subrange(k2 + 1, s.len() as int)[k - k2 - 1] == c);
    }
    if k < k2 {
        assert(s.subrange(k + 1, s.len() as int)[k2 - k - 1] == c);
    }
}

proof fn lemma_no_index(s: Seq<char>, c: char)
    requires
        has_no(s, c),
    ensures
        last_index_of(s, c) is None,
{
    if exists|k: int| is_last_index(s, k, c) {
        let k = choose|k: int| is_last_index(s, k, c);
        assert(s[k] == c);
    }
}

/// Position of the last `c` in `s[lo..hi]`.
fn find_last(s: &Vec<char>, lo: usize, hi: usize, c: char) -> (r: Option<usize>)
    requires
        lo <= hi <= s.len(),
    ensures
        match r {
            Some(k) => lo <= k < hi && is_last_index(s@.subrange(lo as int, hi as int), k - lo, c)
                && last_index_of(s@.subrange(lo as int, hi as int), c) == Some(k - lo),
            None => has_no(s@.subrange(lo as int, hi as int), c) && last_index_of(
                s@.subrange(lo as int, hi as int),
                c,
            ) is None,
        },
{
    let ghost w = s@.subrange(lo as int, hi as int);
    let mut i: usize = hi;
    while i > lo
        invariant
            lo <= i <= hi <= s.len(),
            w == s@.subrange(lo as int, hi as int),
            forall|j: int| i <= j < hi ==> #[trigger] s@[j] != c,
        decreases i - lo,
    {
        if s[i - 1] == c {
            let k = i - 1;
            proof {
                let rest = w.subrange(k - lo + 1, w.len() as int);
                assert forall|j: int| 0 <= j < rest.len() implies #[trigger] rest[j] != c by {
                    assert(rest[j] == s@[k + 1 + j]);
                }
                lemma_last_index_unique(w, k - lo, c);
            }
            return Some(k);
        }
        i = i - 1;
    }
    proof {
        assert forall|j: int| 0 <= j < w.len() implies #[trigger] w[j] != c by {
            assert(w[j] == s@[lo + j]);
        }
        lemma_no_index(w, c);
    }
    None
}

/// Whether `s[lo..hi]` equals `t`.
fn range_equals(s: &Vec<char>, lo: usize, hi: usize, t: &Vec<char>) -> (r: bool)
    requires
        lo <= hi <= s.len(),
    ensures
        r == (s@.subrange(lo as int, hi as int) == t@),
{
    if hi - lo != t.len() {
        return false;
    }
    let mut i: usize = 0;
    while i < t.len()
        invariant
            hi - lo == t.len(),
            lo <= hi <= s.len(),
            0 <= i <= t.len(),
            forall|j: int| 0 <= j < i ==> s@[lo + j] == #[trigger] t@[j],
        decreases t.len() - i,
    {
        if s[lo + i] != t[i] {
            assert(s@.subrange(lo as int, hi as int)[i as int] != t@[i as int]);
            return false;
        }
        i = i + 1;
    }
    assert(s@.subrange(lo as int, hi as int) =~= t@);
    true
}

/// The characters `s[lo..hi]` as a string.
fn sub_string(s: &Vec<char>, lo: usize, hi: usize) -> (r: String)
    requires
        lo <= hi <= s.len(),
    ensures
        r@ == s@.subrange(lo as int, hi as int),
{
    string_of(&s.as_slice()[lo..hi])
}

fn cpu_type_key_chars() -> (r: Vec<char>)
    ensures
        r@ == cpu_type_key(),
{
    let r = vec!['c', 'p', 'u', '_', 't', 'y', 'p', 'e'];
    assert(r@ =~= cpu_type_key());
    r
}

fn cpu_type_by_name(s: &Vec<char>, lo: usize, hi: usize) -> (r: Option<u32>)
    requires
        lo <= hi <= s.len(),
    ensures
        r == cpu_type_named(s@.subrange(lo as int, hi as int)),
{
    let arm = vec!['a', 'r', 'm'];
    let arm64 = vec!['a', 'r', 'm', '6', '4'];
    let arm64_32 = vec!['a', 'r', 'm', '6', '4', '_', '3', '2'];
    let x86_64 = vec!['x', '8', '6', '_', '6', '4'];
    assert(arm@ =~= seq!['a', 'r', 'm']);
    assert(arm64@ =~= seq!['a', 'r', 'm', '6', '4']);
    assert(arm64_32@ =~= seq!['a', 'r', 'm', '6', '4', '_', '3', '2']);
    assert(x86_64@ =~= seq!['x', '8', '6', '_', '6', '4']);
    if range_equals(s, lo, hi, &arm) {
        Some(CPU_TYPE_ARM)
    } else if range_equals(s, lo, hi, &arm64) {
        Some(CPU_TYPE_ARM64)
    } else if range_equals(s, lo, hi, &arm64_32) {
        Some(CPU_TYPE_ARM64_32)
    } else if range_equals(s, lo, hi, &x86_64) {
        Some(CPU_TYPE_X86_64)
    } else {
        None
    }
}

/// Reads the expression after an `@` in `s[lo..hi]`.
fn parse_at_expr(s: &Vec<char>, lo: usize, hi: usize) -> (r: Result<AtTarget, ()>)
    requires
        lo <= hi <= s.len(),
    ensures
        r == spec_parse_at_expr(s@.subrange(lo as int, hi as int)),
{
    let ghost e = s@.subrange(lo as int, hi as int);
    if let Some(n) = parse_unsigned(s, lo, hi, usize::MAX as u64) {
        return Ok(AtTarget::Index(n as usize));
    }
    if hi - lo >= 2 && s[lo] == '[' && s[hi - 1] == ']' {
        let vlo = lo + 1;
        let vhi = hi - 1;
        let ghost v = s@.subrange(vlo as int, vhi as int);
        assert(v =~= e.subrange(1, e.len() - 1));
        match find_last(s, vlo, vhi, '=') {
            None => Err(()),
            Some(k) => {
                let earlier = find_last(s, vlo, k, '=');
                assert(v.subrange(0, k - vlo) =~= s@.subrange(vlo as int, k as int));
                assert(v.subrange(k - vlo + 1, v.len() as int) =~= s@.subrange(k + 1, vhi as int));
                if earlier.is_some() {
                    return Err(());
                }
                let key = cpu_type_key_chars();
                if !range_equals(s, vlo, k, &key) {
                    return Err(());
                }
                match cpu_type_by_name(s, k + 1, vhi) {
                    Some(c) => Ok(AtTarget::Cpu(c)),
                    None => match parse_unsigned(s, k + 1, vhi, u32::MAX as u64) {
                        Some(n) => Ok(AtTarget::Cpu(n as u32)),
                        None => Err(()),
                    },
                }
            },
        }
    } else {
        Err(())
    }
}

impl SettingsScope {
    /// A copy of this scope.
    pub fn duplicate(&self) -> (r: SettingsScope)
        ensures
            r@ == self@,
    {
        match self {
            SettingsScope::Main => SettingsScope::Main,
            SettingsScope::Path(p) => SettingsScope::Path(p.clone()),
            SettingsScope::MultiArchIndex(i) => SettingsScope::MultiArchIndex(*i),
            SettingsScope::MultiArchCpuType(c) => SettingsScope::MultiArchCpuType(*c),
            SettingsScope::PathMultiArchIndex(p, i) => SettingsScope::PathMultiArchIndex(
                p.clone(),
                *i,
            ),
            SettingsScope::PathMultiArchCpuType(p, c) => SettingsScope::PathMultiArchCpuType(
                p.clone(),
                *c,
            ),
        }
    }

    /// Whether two scopes denote the same target.
    pub fn same_as(&self, other: &SettingsScope) -> (r: bool)
        ensures
            r == (self@ == other@),
    {
        match (self, other) {
            (SettingsScope::Main, SettingsScope::Main) => true,
            (SettingsScope::Path(a), SettingsScope::Path(b)) => a.eq(b),
            (SettingsScope::MultiArchIndex(a), SettingsScope::MultiArchIndex(b)) => a == b,
            (SettingsScope::MultiArchCpuType(a), SettingsScope::MultiArchCpuType(b)) => a == b,
            (
                SettingsScope::PathMultiArchIndex(a, i),
                SettingsScope::PathMultiArchIndex(b, j),
            ) => a.eq(b) && i == j,
            (
                SettingsScope::PathMultiArchCpuType(a, i),
                SettingsScope::PathMultiArchCpuType(b, j),
            ) => a.eq(b) && i == j,
            _ => false,
        }
    }

    /// Parses the string form of a scope.
    pub fn try_from(s: &str) -> (r: Result<SettingsScope, AppleCodesignError>)
        ensures
            match spec_parse_scope(s@) {
                Ok(k) => r is Ok && r->Ok_0@ == k,
                Err(()) => r == Err::<SettingsScope, AppleCodesignError>(
                    AppleCodesignError::ParseSettingsScope(r->Err_0->ParseSettingsScope_0),
                ) && r->Err_0->ParseSettingsScope_0@ == s@,
            },
    {
        let c = chars_of(s);
        let n = c.len();
        let main = vec!['@', 'm', 'a', 'i', 'n'];
        assert(main@ =~= main_chars());
        assert(c@.subrange(0, n as int) =~= c@);
        if range_equals(&c, 0, n, &main) {
            return Ok(SettingsScope::Main);
        }
        if n > 0 && c[0] == '@' {
            return match parse_at_expr(&c, 1, n) {
                Ok(AtTarget::Index(i)) => Ok(SettingsScope::MultiArchIndex(i)),
                Ok(AtTarget::Cpu(t)) => Ok(SettingsScope::MultiArchCpuType(t)),
                Err(()) => Err(AppleCodesignError::ParseSettingsScope(s.to_owned())),
            };
        }
        match find_last(&c, 0, n, '@') {
            None => Ok(SettingsScope::Path(s.to_owned())),
            Some(k) => {
                let path = sub_string(&c, 0, k);
                assert(c@.subrange(k + 1, n as int) =~= c@.subrange(0, n as int).subrange(
                    k + 1,
                    n as int,
                ));
                match parse_at_expr(&c, k + 1, n) {
                    Ok(AtTarget::Index(i)) => Ok(SettingsScope::PathMultiArchIndex(path, i)),
                    Ok(AtTarget::Cpu(t)) => Ok(SettingsScope::PathMultiArchCpuType(path, t)),
                    Err(()) => Err(AppleCodesignError::ParseSettingsScope(s.to_owned())),
                }
            },
        }
    }

    /// The canonical string form of this scope.
    pub fn to_scope_string(&self) -> (r: String)
        ensures
            r@ == spec_format_scope(self@),
    {
        let mut out: Vec<char> = Vec::new();
        match self {
            SettingsScope::Main => {
                out = vec!['@', 'm', 'a', 'i', 'n'];
            },
            SettingsScope::Path(p) => {
                out = chars_of(p.as_str());
            },
            SettingsScope::MultiArchIndex(i) => {
                push_index_suffix(&mut out, *i);
            },
            SettingsScope::MultiArchCpuType(c) => {
                push_cpu_suffix(&mut out, *c);
            },
            SettingsScope::PathMultiArchIndex(p, i) => {
                out = chars_of(p.as_str());
                push_index_suffix(&mut out, *i);
            },
            SettingsScope::PathMultiArchCpuType(p, c) => {
                out = chars_of(p.as_str());
                push_cpu_suffix(&mut out, *c);
            },
        }
        assert(out@ =~= spec_format_scope(self@));
        string_of(out.as_slice())
    }
}

fn push_index_suffix(out: &mut Vec<char>, i: usize)
    ensures
        final(out)@ == old(out)@ + index_suffix(i),
{
    out.push('@');
    push_decimal(i as u64, out);
    assert(final(out)@ =~= old(out)@ + index_suffix(i));
}

fn push_cpu_suffix(out: &mut Vec<char>, c: u32)
    ensures
        final(out)@ == old(out)@ + cpu_suffix(c),
{
    let mut head = vec!['@', '[', 'c', 'p', 'u', '_', 't', 'y', 'p', 'e', '='];
    out.append(&mut head);
    push_decimal(c as u64, out);
    out.push(']');
    assert(final(out)@ =~= old(out)@ + cpu_suffix(c));
}


proof fn lemma_index_expr(i: usize)
    ensures
        spec_parse_at_expr(decimal_chars(i as nat)) == Ok::<AtTarget, ()>(AtTarget::Index(i)),
{
    lemma_decimal_round_trip(i as nat);
}

proof fn lemma_cpu_expr(c: u32)
    ensures
        spec_parse_at_expr(cpu_suffix(c).subrange(1, cpu_suffix(c).len() as int)) == Ok::<
            AtTarget,
            (),
        >(AtTarget::Cpu(c)),
{
    let d = decimal_chars(c as nat);
    lemma_decimal_round_trip(c as nat);
    let e = cpu_suffix(c).subrange(1, cpu_suffix(c).len() as int);
    assert(e =~= seq!['['] + cpu_type_key() + seq!['='] + d + seq![']']);
    assert(!all_digits(e)) by {
        assert(!is_digit(e[0]));
    }
    assert(e[0] != '+');
    assert(decimal_value(e) is None);
    let v = e.subrange(1, e.len() - 1);
    assert(v =~= cpu_type_key() + seq!['='] + d);
    assert(has_no(v.subrange(9, v.len() as int), '=')) by {
        let rest = v.subrange(9, v.len() as int);
        assert(rest =~= d);
        assert forall|j: int| 0 <= j < rest.len() implies #[trigger] rest[j] != '=' by {
            assert(is_digit(d[j]));
        }
    }
    lemma_last_index_unique(v, 8, '=');
    assert(v.subrange(0, 8) =~= cpu_type_key());
    assert(v.subrange(9, v.len() as int) =~= d);
    assert(cpu_type_named(d) is None) by {
        assert(is_digit(d[0]));
        if d == seq!['a', 'r', 'm'] || d == seq!['a', 'r', 'm', '6', '4'] || d == seq![
            'a',
            'r',
            'm',
            '6',
            '4',
            '_',
            '3',
            '2',
        ] {
            assert(d[0] == 'a');
        }
        if d == seq!['x', '8', '6', '_', '6', '4'] {
            assert(d[0] == 'x');
        }
    }
}

proof fn lemma_suffix_has_no_at(k: ScopeKey)
    ensures
        k matches ScopeKey::PathMultiArchIndex(_, i) ==> has_no(decimal_chars(i as nat), '@'),
        k matches ScopeKey::PathMultiArchCpuType(_, c) ==> has_no(
            cpu_suffix(c).subrange(1, cpu_suffix(c).len() as int),
            '@',
        ),
{
    match k {
        ScopeKey::PathMultiArchIndex(_, i) => {
            let d = decimal_chars(i as nat);
            lemma_decimal_round_trip(i as nat);
            assert forall|j: int| 0 <= j < d.len() implies #[trigger] d[j] != '@' by {
                assert(is_digit(d[j]));
            }
        },
        ScopeKey::PathMultiArchCpuType(_, c) => {
            let d = decimal_chars(c as nat);
            lemma_decimal_round_trip(c as nat);
            let e = cpu_suffix(c).subrange(1, cpu_suffix(c).len() as int);
            assert(e =~= seq!['['] + cpu_type_key() + seq!['='] + d + seq![']']);
            assert forall|j: int| 0 <= j < e.len() implies #[trigger] e[j] != '@' by {
                if 10 <= j < e.len() - 1 {
                    assert(e[j] == d[j - 10]);
                    assert(is_digit(d[j - 10]));
                }
            }
        },
        _ => {},
    }
}

/// Reading the canonical string form of a canonical scope gives that scope
/// back.
pub proof fn lemma_scope_round_trip(k: ScopeKey)
    requires
        is_canonical(k),
    ensures
        spec_parse_scope(spec_format_scope(k)) == Ok::<ScopeKey, ()>(k),
{
    let s = spec_format_scope(k);
    lemma_suffix_has_no_at(k);
    match k {
        ScopeKey::Main => {},
        ScopeKey::Path(p) => {
            if p == main_chars() {
                assert(p[0] == '@');
            }
            lemma_no_index(p, '@');
        },
        ScopeKey::MultiArchIndex(i) => {
            lemma_decimal_round_trip(i as nat);
            assert(is_digit(s[1]));
            assert(s.subrange(1, s.len() as int) =~= decimal_chars(i as nat));
            lemma_index_expr(i);
        },
        ScopeKey::MultiArchCpuType(c) => {
            assert(s[1] == '[');
            lemma_cpu_expr(c);
        },
        ScopeKey::PathMultiArchIndex(p, i) => {
            let suffix = index_suffix(i);
            assert(s[0] == p[0]);
            let rest = s.subrange(p.len() as int + 1, s.len() as int);
            assert(rest =~= decimal_chars(i as nat));
            assert(s.subrange(0, p.len() as int) =~= p);
            lemma_last_index_unique(s, p.len() as int, '@');
            lemma_index_expr(i);
        },
        ScopeKey::PathMultiArchCpuType(p, c) => {
            let suffix = cpu_suffix(c);
            assert(s[0] == p[0]);
            let rest = s.subrange(p.len() as int + 1, s.len() as int);
            assert(rest =~= suffix.subrange(1, suffix.len() as int));
            assert(s.subrange(0, p.len() as int) =~= p);
            lemma_last_index_unique(s, p.len() as int, '@');
            lemma_cpu_expr(c);
        },
    }
}


/// A description of a scope for people to read.
pub open spec fn spec_description(k: ScopeKey) -> Seq<char> {
    match k {
        ScopeKey::Main => "main signing target"@,
        ScopeKey::Path(p) => "path "@ + p,
        ScopeKey::MultiArchIndex(i) => "fat/universal Mach-O binaries at index "@ + decimal_chars(
            i as nat,
        ),
        ScopeKey::MultiArchCpuType(c) => "fat/universal Mach-O binaries for CPU "@ + decimal_chars(
            c as nat,
        ),
        ScopeKey::PathMultiArchIndex(p, i) => "fat/universal Mach-O binaries at index "@
            + decimal_chars(i as nat) + " under path "@ + p,
        ScopeKey::PathMultiArchCpuType(p, c) => "fat/universal Mach-O binaries for CPU "@
            + decimal_chars(c as nat) + " under path "@ + p,
    }
}

impl SettingsScope {
    /// A description of this scope for people to read.
    pub fn description(&self) -> (r: String)
        ensures
            r@ == spec_description(self@),
    {
        let mut out: Vec<char>;
        match self {
            SettingsScope::Main => {
                out = chars_of("main signing target");
            },
            SettingsScope::Path(p) => {
                out = chars_of("path ");
                let mut rest = chars_of(p.as_str());
                out.append(&mut rest);
            },
            SettingsScope::MultiArchIndex(i) => {
                out = chars_of("fat/universal Mach-O binaries at index ");
                push_decimal(*i as u64, &mut out);
            },
            SettingsScope::MultiArchCpuType(c) => {
                out = chars_of("fat/universal Mach-O binaries for CPU ");
                push_decimal(*c as u64, &mut out);
            },
            SettingsScope::PathMultiArchIndex(p, i) => {
                out = chars_of("fat/universal Mach-O binaries at index ");
                push_decimal(*i as u64, &mut out);
                let mut mid = chars_of(" under path ");
                out.append(&mut mid);
                let mut rest = chars_of(p.as_str());
                out.append(&mut rest);
            },
            SettingsScope::PathMultiArchCpuType(p, c) => {
                out = chars_of("fat/universal Mach-O binaries for CPU ");
                push_decimal(*c as u64, &mut out);
                let mut mid = chars_of(" under path ");
                out.append(&mut mid);
                let mut rest = chars_of(p.as_str());
                out.append(&mut rest);
            },
        }
        assert(out@ =~= spec_description(self@));
        string_of(out.as_slice())
    }
}

} // verus!
