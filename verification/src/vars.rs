//! Variables and their expansion: `$NAME`, `${NAME}` and `$$NAME`.
use vstd::prelude::*;

use crate::parser::strings_view;
use crate::text::{
    append, char_is_alphanumeric, chars_of, find_char, find_char_from, lemma_find_char_from,
    string_from_chars, subvec, alphanumeric,
};

verus! {

// ---------------------------------------------------------------------------
// Variable expansion
// ---------------------------------------------------------------------------

/// The variables that an expansion can see: user variables (`$NAME`,
/// `${NAME}`), system variables (`$$NAME`), the process environment (the
/// fallback of both) and the current directory (`$$CWD`). In each list a
/// later binding of a name hides an earlier one.
pub struct Scope {
    pub user: Vec<(String, String)>,
    pub sys: Vec<(String, String)>,
    pub env: Vec<(String, String)>,
    pub cwd: String,
}

pub struct SpecScope {
    pub user: Seq<(Seq<char>, Seq<char>)>,
    pub sys: Seq<(Seq<char>, Seq<char>)>,
    pub env: Seq<(Seq<char>, Seq<char>)>,
    pub cwd: Seq<char>,
}

pub open spec fn bindings_view(v: Seq<(String, String)>) -> Seq<(Seq<char>, Seq<char>)> {
    v.map_values(|b: (String, String)| (b.0@, b.1@))
}

impl View for Scope {
    type V = SpecScope;

    open spec fn view(&self) -> SpecScope {
        SpecScope {
            user: bindings_view(self.user@),
            sys: bindings_view(self.sys@),
            env: bindings_view(self.env@),
            cwd: self.cwd@,
        }
    }
}

/// The value of the last binding of `name` in `b`.
pub open spec fn lookup(b: Seq<(Seq<char>, Seq<char>)>, name: Seq<char>) -> Option<Seq<char>>
    decreases b.len(),
{
    if b.len() == 0 {
        None
    } else if b.last().0 == name {
        Some(b.last().1)
    } else {
        lookup(b.drop_last(), name)
    }
}

/// The characters of a variable name after `$` or `$$`.
pub open spec fn is_name_char(c: char) -> bool {
    alphanumeric(c) || c == '_'
}

/// The length of the variable name at the start of `t`.
pub open spec fn name_len(t: Seq<char>) -> nat
    decreases t.len(),
{
    if t.len() > 0 && is_name_char(t[0]) {
        1 + name_len(t.drop_first())
    } else {
        0
    }
}

pub proof fn lemma_name_len(t: Seq<char>)
    ensures
        name_len(t) <= t.len(),
        forall|k: int| 0 <= k < name_len(t) ==> is_name_char(#[trigger] t[k]),
        name_len(t) < t.len() ==> !is_name_char(t[name_len(t) as int]),
    decreases t.len(),
{
    if t.len() > 0 && is_name_char(t[0]) {
        lemma_name_len(t.drop_first());
        assert forall|k: int| 0 <= k < name_len(t) implies is_name_char(#[trigger] t[k]) by {
            if k > 0 {
                assert(t[k] == t.drop_first()[k - 1]);
            }
        }
    }
}

/// Text and warnings, as an expansion produces them.
pub open spec fn join(
    a: (Seq<char>, Seq<Seq<char>>),
    b: (Seq<char>, Seq<Seq<char>>),
) -> (Seq<char>, Seq<Seq<char>>) {
    (a.0 + b.0, a.1 + b.1)
}

pub open spec fn text(t: Seq<char>) -> (Seq<char>, Seq<Seq<char>>) {
    (t, seq![])
}

pub open spec fn warning(w: Seq<char>) -> (Seq<char>, Seq<Seq<char>>) {
    (seq![], seq![w])
}

pub open spec fn w_cwd() -> Seq<char> {
    seq!['C', 'W', 'D']
}

/// What `$$NAME` expands to: `$$` for an empty name, the current directory
/// for `CWD`, else the system variable, else the environment variable, else
/// nothing and a warning.
pub open spec fn sys_piece(name: Seq<char>, c: SpecScope) -> (Seq<char>, Seq<Seq<char>>) {
    if name.len() == 0 {
        text(seq!['$', '$'])
    } else if name == w_cwd() {
        text(c.cwd)
    } else {
        match lookup(c.sys, name) {
            Some(v) => text(v),
            None => match lookup(c.env, name) {
                Some(v) => text(v),
                None => warning("unknown system variable '"@ + seq!['$', '$'] + name + "'"@),
            },
        }
    }
}

/// What `${NAME}` expands to: the user variable, else the environment
/// variable, else nothing and a warning.
pub open spec fn brace_piece(name: Seq<char>, c: SpecScope) -> (Seq<char>, Seq<Seq<char>>) {
    match lookup(c.user, name) {
        Some(v) => text(v),
        None => match lookup(c.env, name) {
            Some(v) => text(v),
            None => warning("undefined variable '"@ + seq!['$', '{'] + name + "}'"@),
        },
    }
}

/// What `$NAME` expands to: the user variable, else the environment variable,
/// else nothing and a warning.
pub open spec fn user_piece(name: Seq<char>, c: SpecScope) -> (Seq<char>, Seq<Seq<char>>) {
    match lookup(c.user, name) {
        Some(v) => text(v),
        None => match lookup(c.env, name) {
            Some(v) => text(v),
            None => warning("undefined variable '"@ + seq!['$'] + name + "'"@),
        },
    }
}

/// The expansion of `t`, and the warnings it gives, in order.
pub open spec fn expand(t: Seq<char>, c: SpecScope) -> (Seq<char>, Seq<Seq<char>>)
    decreases t.len(),
{
    if t.len() == 0 {
        (seq![], seq![])
    } else if t[0] != '$' {
        join(text(seq![t[0]]), expand(t.drop_first(), c))
    } else if t.len() == 1 {
        text(seq!['$'])
    } else {
        proof {
            lemma_name_len(t.skip(2));
            lemma_name_len(t.skip(1));
            lemma_find_char_from(t, '}', 2);
        }
        if t[1] == '$' {
            let n = name_len(t.skip(2)) as int;
            join(sys_piece(t.subrange(2, 2 + n), c), expand(t.skip(2 + n), c))
        } else if t[1] == '{' {
            match find_char_from(t, '}', 2) {
                Some(e) => join(brace_piece(t.subrange(2, e), c), expand(t.skip(e + 1), c)),
                None => join(text(seq!['$', '{']), expand(t.skip(2), c)),
            }
        } else {
            let n = name_len(t.skip(1)) as int;
            if n == 0 {
                join(text(seq!['$']), expand(t.skip(1), c))
            } else {
                join(user_piece(t.subrange(1, 1 + n), c), expand(t.skip(1 + n), c))
            }
        }
    }
}

/// The value of the last binding of `name` in `b`.
pub fn lookup_binding(b: &Vec<(String, String)>, name: &Vec<char>) -> (r: Option<String>)
    ensures
        match r {
            Some(v) => lookup(bindings_view(b@), name@) == Some(v@),
            None => lookup(bindings_view(b@), name@) is None,
        },
{
    let mut i = b.len();
    assert(bindings_view(b@).take(i as int) =~= bindings_view(b@));
    while i > 0
        invariant
            i <= b@.len(),
            lookup(bindings_view(b@), name@) == lookup(bindings_view(b@).take(i as int), name@),
        decreases i,
    {
        let ghost bv = bindings_view(b@).take(i as int);
        assert(bv.drop_last() =~= bindings_view(b@).take(i - 1));
        assert(bv.last() == (b@[i - 1].0@, b@[i - 1].1@));
        if crate::text::chars_eq(&chars_of(b[i - 1].0.as_str()), name) {
            return Some(b[i - 1].1.clone());
        }
        i -= 1;
    }
    None
}

/// Reads the variable name that starts at `from`: the longest run of letters,
/// digits and `_`.
fn read_var_name(chars: &Vec<char>, from: usize) -> (r: (Vec<char>, usize))
    requires
        from <= chars@.len(),
    ensures
        r.1 == name_len(chars@.skip(from as int)),
        r.0@ == chars@.subrange(from as int, from + r.1),
        from + r.1 <= chars@.len(),
{
    let mut j = from;
    while j < chars.len() && (char_is_alphanumeric(chars[j]) || chars[j] == '_')
        invariant
            from <= j <= chars@.len(),
            forall|k: int| from <= k < j ==> is_name_char(#[trigger] chars@[k]),
        decreases chars@.len() - j,
    {
        j += 1;
    }
    proof {
        lemma_name_len_prefix(chars@.skip(from as int), (j - from) as int);
    }
    (subvec(chars, from, j), j - from)
}

proof fn lemma_name_len_prefix(t: Seq<char>, m: int)
    requires
        0 <= m <= t.len(),
        forall|k: int| 0 <= k < m ==> is_name_char(#[trigger] t[k]),
        m < t.len() ==> !is_name_char(t[m]),
    ensures
        name_len(t) == m,
    decreases m,
{
    if m > 0 {
        assert forall|k: int| 0 <= k < m - 1 implies is_name_char(#[trigger] t.drop_first()[k]) by {
            assert(t.drop_first()[k] == t[k + 1]);
        }
        if m < t.len() {
            assert(t.drop_first()[m - 1] == t[m]);
        }
        lemma_name_len_prefix(t.drop_first(), m - 1);
    }
}

/// The warning for an unknown `$$NAME`.
fn unknown_sys_warning(name: &Vec<char>) -> (r: String)
    ensures
        r@ == "unknown system variable '"@ + seq!['$', '$'] + name@ + "'"@,
{
    let mut m = chars_of("unknown system variable '");
    m.push('$');
    m.push('$');
    append(&mut m, name);
    append(&mut m, &chars_of("'"));
    string_from_chars(&m)
}

fn undefined_brace_warning(name: &Vec<char>) -> (r: String)
    ensures
        r@ == "undefined variable '"@ + seq!['$', '{'] + name@ + "}'"@,
{
    let mut m = chars_of("undefined variable '");
    m.push('$');
    m.push('{');
    append(&mut m, name);
    append(&mut m, &chars_of("}'"));
    string_from_chars(&m)
}

fn undefined_warning(name: &Vec<char>) -> (r: String)
    ensures
        r@ == "undefined variable '"@ + seq!['$'] + name@ + "'"@,
{
    let mut m = chars_of("undefined variable '");
    m.push('$');
    append(&mut m, name);
    append(&mut m, &chars_of("'"));
    string_from_chars(&m)
}

/// Adds the expansion `piece` of a variable to `out` and `warnings`.
fn emit(
    out: &mut Vec<char>,
    warnings: &mut Vec<String>,
    value: Option<String>,
    warn: String,
)
    ensures
        (final(out)@, strings_view(final(warnings)@)) == join(
            (old(out)@, strings_view(old(warnings)@)),
            match value {
                Some(v) => text(v@),
                None => warning(warn@),
            },
        ),
{
    match value {
        Some(v) => {
            append(out, &chars_of(v.as_str()));
            assert(strings_view(warnings@) =~= strings_view(old(warnings)@) + seq![]);
        },
        None => {
            let ghost w = warn@;
            warnings.push(warn);
            assert(strings_view(warnings@) =~= strings_view(old(warnings)@) + seq![w]);
            assert(out@ =~= old(out)@ + seq![]);
        },
    }
}

/// The user variable or else the environment variable `name`.
fn user_or_env(scope: &Scope, name: &Vec<char>) -> (r: Option<String>)
    ensures
        match r {
            Some(v) => match lookup(scope@.user, name@) {
                Some(u) => u == v@,
                None => lookup(scope@.env, name@) == Some(v@),
            },
            None => lookup(scope@.user, name@) is None && lookup(scope@.env, name@) is None,
        },
{
    match lookup_binding(&scope.user, name) {
        Some(v) => Some(v),
        None => lookup_binding(&scope.env, name),
    }
}

fn cwd_word() -> (r: Vec<char>)
    ensures
        r@ == w_cwd(),
{
    vec!['C', 'W', 'D']
}

/// Expands `$NAME`, `${NAME}` and `$$NAME` in `input`. Returns the expanded
/// text and the warnings for the variables that are not defined.
pub fn expand_vars(input: &str, scope: &Scope) -> (r: (String, Vec<String>))
    ensures
        (r.0@, strings_view(r.1@)) == expand(input@, scope@),
{
    let s = chars_of(input);
    let ghost c = scope@;
    let mut out: Vec<char> = Vec::new();
    let mut warnings: Vec<String> = Vec::new();
    let mut i: usize = 0;
    assert(s@.skip(0) =~= s@);
    assert(join((out@, strings_view(warnings@)), expand(s@.skip(0), c)) =~= expand(s@, c));
    while i < s.len()
        invariant
            s@ == input@,
            i <= s@.len(),
            c == scope@,
            join((out@, strings_view(warnings@)), expand(s@.skip(i as int), c)) == expand(s@, c),
        decreases s@.len() - i,
    {
        let ghost t = s@.skip(i as int);
        let ghost before = (out@, strings_view(warnings@));
        proof {
            lemma_name_len(t.skip(2));
            lemma_name_len(t.skip(1));
            lemma_find_char_from(t, '}', 2);
        }
        if s[i] != '$' {
            out.push(s[i]);
            assert(t.drop_first() =~= s@.skip(i + 1));
            i += 1;
            assert(join((out@, strings_view(warnings@)), expand(s@.skip(i as int), c)) =~= join(
                before,
                expand(t, c),
            ));
        } else if i + 1 >= s.len() {
            out.push('$');
            assert(join((out@, strings_view(warnings@)), expand(s@.skip(i + 1), c)) =~= join(
                before,
                expand(t, c),
            ));
            i += 1;
        } else if s[i + 1] == '$' {
            let (name, n) = read_var_name(&s, i + 2);
            assert(s@.skip(i + 2) =~= t.skip(2));
            assert(name@ =~= t.subrange(2, 2 + n));
            let ghost piece = sys_piece(name@, c);
            let ghost mid = (out@, strings_view(warnings@));
            if n == 0 {
                out.push('$');
                out.push('$');
                assert((out@, strings_view(warnings@)) =~= join(mid, piece));
            } else if crate::text::chars_eq(&name, &cwd_word()) {
                append(&mut out, &chars_of(scope.cwd.as_str()));
                assert((out@, strings_view(warnings@)) =~= join(mid, piece));
            } else {
                let v = match lookup_binding(&scope.sys, &name) {
                    Some(v) => Some(v),
                    None => lookup_binding(&scope.env, &name),
                };
                emit(&mut out, &mut warnings, v, unknown_sys_warning(&name));
            }
            assert(t.skip(2 + n as int) =~= s@.skip(i + 2 + n));
            i = i + 2 + n;
            assert(join((out@, strings_view(warnings@)), expand(s@.skip(i as int), c)) =~= join(
                before,
                expand(t, c),
            ));
        } else if s[i + 1] == '{' {
            match find_char(&s, '}', i + 2) {
                Some(e) => {
                    proof {
                        lemma_find_char_from(s@, '}', i + 2);
                        lemma_find_shift(s@, '}', i as int, 2);
                    }
                    let name = subvec(&s, i + 2, e);
                    assert(name@ =~= t.subrange(2, e - i));
                    emit(&mut out, &mut warnings, user_or_env(scope, &name), undefined_brace_warning(&name));
                    assert(t.skip(e - i + 1) =~= s@.skip(e + 1));
                    i = e + 1;
                },
                None => {
                    proof {
                        lemma_find_shift(s@, '}', i as int, 2);
                    }
                    out.push('$');
                    out.push('{');
                    assert(t.skip(2) =~= s@.skip(i + 2));
                    i = i + 2;
                },
            }
            assert(join((out@, strings_view(warnings@)), expand(s@.skip(i as int), c)) =~= join(
                before,
                expand(t, c),
            ));
        } else {
            let (name, n) = read_var_name(&s, i + 1);
            assert(s@.skip(i + 1) =~= t.skip(1));
            assert(name@ =~= t.subrange(1, 1 + n));
            if n == 0 {
                out.push('$');
            } else {
                emit(&mut out, &mut warnings, user_or_env(scope, &name), undefined_warning(&name));
            }
            assert(t.skip(1 + n as int) =~= s@.skip(i + 1 + n));
            i = i + 1 + n;
            assert(join((out@, strings_view(warnings@)), expand(s@.skip(i as int), c)) =~= join(
                before,
                expand(t, c),
            ));
        }
    }
    assert(s@.skip(i as int) =~= seq![]);
    assert(join((out@, strings_view(warnings@)), expand(s@.skip(i as int), c)) =~= (
        out@,
        strings_view(warnings@),
    ));
    (string_from_chars(&out), warnings)
}

/// `$NAME` and `${NAME}` are equivalent: followed by the same text, a
/// reference to a non-empty name made of letters, digits and `_` expands to
/// the same text in either form (only the wording of the warning for an
/// undefined name differs). The text after `$NAME` must not continue the name,
/// or it would be read as part of it.
pub proof fn law_braced_reference_same_text(name: Seq<char>, rest: Seq<char>, c: SpecScope)
    requires
        name.len() > 0,
        forall|k: int| 0 <= k < name.len() ==> is_name_char(#[trigger] name[k]),
        rest.len() > 0 ==> !is_name_char(rest[0]),
    ensures
        expand(seq!['$'] + name + rest, c).0 == expand(
            seq!['$', '{'] + name + seq!['}'] + rest,
            c,
        ).0,
{
    let t1 = seq!['$'] + name + rest;
    let t2 = seq!['$', '{'] + name + seq!['}'] + rest;
    let n = name.len() as int;
    assert(t1[1] == name[0]);
    assert(is_name_char(name[0]));
    assert(t1.skip(1) =~= name + rest);
    if rest.len() > 0 {
        assert((name + rest)[n] == rest[0]);
    }
    assert forall|k: int| 0 <= k < n implies is_name_char(#[trigger] (name + rest)[k]) by {
        assert((name + rest)[k] == name[k]);
    }
    lemma_name_len_prefix(name + rest, n);
    assert(t1.subrange(1, 1 + n) =~= name);
    assert(t1.skip(1 + n) =~= rest);
    assert(t2[1] == '{');
    lemma_find_char_from(t2, '}', 2);
    assert(t2[2 + n] == '}');
    assert forall|m: int| 2 <= m < 2 + n implies t2[m] != '}' by {
        assert(t2[m] == name[m - 2]);
        assert(is_name_char(name[m - 2]));
    }
    assert(find_char_from(t2, '}', 2) == Some(2 + n));
    assert(t2.subrange(2, 2 + n) =~= name);
    assert(t2.skip(2 + n + 1) =~= rest);
}

/// A reference `$NAME` expands to the variable's value: the user variable,
/// else the environment variable; an undefined name expands to nothing and
/// gives a warning. The text after the reference expands on its own.
pub proof fn law_reference_expands_to_value(name: Seq<char>, rest: Seq<char>, c: SpecScope)
    requires
        name.len() > 0,
        forall|k: int| 0 <= k < name.len() ==> is_name_char(#[trigger] name[k]),
        rest.len() > 0 ==> !is_name_char(rest[0]),
    ensures
        expand(seq!['$'] + name + rest, c) == join(user_piece(name, c), expand(rest, c)),
        lookup(c.user, name) is None && lookup(c.env, name) is None ==> expand(
            seq!['$'] + name + rest,
            c,
        ) == join(warning("undefined variable '"@ + seq!['$'] + name + "'"@), expand(rest, c)),
{
    let t1 = seq!['$'] + name + rest;
    let n = name.len() as int;
    assert(t1[1] == name[0]);
    assert(is_name_char(name[0]));
    assert(t1.skip(1) =~= name + rest);
    if rest.len() > 0 {
        assert((name + rest)[n] == rest[0]);
    }
    assert forall|k: int| 0 <= k < n implies is_name_char(#[trigger] (name + rest)[k]) by {
        assert((name + rest)[k] == name[k]);
    }
    lemma_name_len_prefix(name + rest, n);
    assert(t1.subrange(1, 1 + n) =~= name);
    assert(t1.skip(1 + n) =~= rest);
}

/// `$$CWD` expands to the current directory of the scope, whatever follows
/// it (when that does not continue the name).
pub proof fn law_cwd_reference(rest: Seq<char>, c: SpecScope)
    requires
        rest.len() > 0 ==> !is_name_char(rest[0]),
    ensures
        expand(seq!['$', '$', 'C', 'W', 'D'] + rest, c) == join(text(c.cwd), expand(rest, c)),
{
    let t = seq!['$', '$', 'C', 'W', 'D'] + rest;
    let tail = t.skip(2);
    assert(tail =~= seq!['C', 'W', 'D'] + rest);
    assert(is_name_char(tail[0]) && is_name_char(tail[1]) && is_name_char(tail[2]));
    if rest.len() > 0 {
        assert(tail[3] == rest[0]);
    }
    lemma_name_len_prefix(tail, 3);
    assert(t.subrange(2, 5) =~= w_cwd());
    assert(t.skip(5) =~= rest);
}

/// `$$NAME` for a system variable (other than `CWD`) expands to its value,
/// whatever the environment holds: the system variables come first, the
/// environment is only their fallback. An unknown name falls back to the
/// environment, and with neither it expands to nothing and warns.
pub proof fn law_system_variable_first(name: Seq<char>, rest: Seq<char>, c: SpecScope)
    requires
        name.len() > 0,
        name != seq!['C', 'W', 'D'],
        forall|k: int| 0 <= k < name.len() ==> is_name_char(#[trigger] name[k]),
        rest.len() > 0 ==> !is_name_char(rest[0]),
    ensures
        lookup(c.sys, name) matches Some(v) ==> expand(seq!['$', '$'] + name + rest, c).0 == v
            + expand(rest, c).0 && expand(seq!['$', '$'] + name + rest, c).1 == expand(rest, c).1,
        lookup(c.sys, name) is None ==> (lookup(c.env, name) matches Some(v) ==> expand(
            seq!['$', '$'] + name + rest,
            c,
        ).0 == v + expand(rest, c).0 && expand(seq!['$', '$'] + name + rest, c).1 == expand(
            rest,
            c,
        ).1),
        lookup(c.sys, name) is None && lookup(c.env, name) is None ==> expand(
            seq!['$', '$'] + name + rest,
            c,
        ).0 == expand(rest, c).0 && expand(seq!['$', '$'] + name + rest, c).1 == seq![
            "unknown system variable '$$"@ + name + "'"@,
        ] + expand(rest, c).1,
{
    let t = seq!['$', '$'] + name + rest;
    let n = name.len() as int;
    let tail = t.skip(2);
    assert(tail =~= name + rest);
    assert forall|k: int| 0 <= k < n implies is_name_char(#[trigger] tail[k]) by {
        assert(tail[k] == name[k]);
    }
    if rest.len() > 0 {
        assert(tail[n] == rest[0]);
    }
    lemma_name_len_prefix(tail, n);
    assert(t.subrange(2, 2 + n) =~= name);
    assert(t.skip(2 + n) =~= rest);
    assert(t[0] == '$' && t[1] == '$');
    assert(seq!['$', '$'] + name + "'"@ =~= "$$"@ + name + "'"@) by {
        reveal_strlit("$$");
    }
    assert("unknown system variable '"@ + seq!['$', '$'] + name + "'"@ =~= "unknown system variable '$$"@ + name + "'"@) by {
        reveal_strlit("$$");
        reveal_strlit("unknown system variable '");
        reveal_strlit("unknown system variable '$$");
    }
}

/// Searching a suffix is searching the whole from the suffix's start.
proof fn lemma_find_shift(s: Seq<char>, c: char, i: int, k: int)
    requires
        0 <= i <= s.len(),
        0 <= k,
    ensures
        find_char_from(s.skip(i), c, k) == match find_char_from(s, c, i + k) {
            Some(e) => Some(e - i),
            None => None,
        },
    decreases s.len() - i - k,
{
    if i + k < s.len() {
        assert(s.skip(i)[k] == s[i + k]);
        if s[i + k] != c {
            lemma_find_shift(s, c, i, k + 1);
        }
    }
}

} // verus!
