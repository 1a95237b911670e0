//! Code generation: a writer for indented text, identifier sanitizing, and the
//! backends that render a compiled `World` (see `rust`).
use vstd::prelude::*;

use crate::module::order::{inverse_names, Module};
use crate::module::{first_from, lemma_first_from, TypeID};
use crate::text::{is_ascii_digit, is_digit, push_char};

pub mod rust;
pub mod rust_defs;
pub mod rust_impls;
pub mod rust_writes;
pub mod rust_emit;
pub mod cpp;
pub mod cpp_defs;
pub mod cpp_impls;
pub mod cpp_emit;

verus! {

/// The generators the command line offers.
#[derive(Debug, Clone, Copy, PartialEq, Eq, Structural)]
pub enum KnownGenerators {
    CPP,
    PYTHON,
    RUST,
    SWIFT,
}

// ---------------------------------------------------------------------------
// Text
// ---------------------------------------------------------------------------
/// Four spaces per level of indentation.
pub open spec fn pad(n: nat) -> Seq<char>
    decreases n,
{
    if n == 0 {
        Seq::empty()
    } else {
        pad((n - 1) as nat) + "    "@
    }
}

/// `s` on a line of its own at indentation `d`.
pub open spec fn line(d: nat, s: Seq<char>) -> Seq<char> {
    pad(d) + s + "\n"@
}

/// `t` followed by the line `s` at indentation `d`.
pub open spec fn put(t: Seq<char>, d: nat, s: Seq<char>) -> Seq<char> {
    t + line(d, s)
}

pub fn cat2(a: &str, b: &str) -> (r: String)
    ensures
        r@ == a@ + b@,
{
    let mut r = a.to_string();
    r.append(b);
    r
}

pub fn cat3(a: &str, b: &str, c: &str) -> (r: String)
    ensures
        r@ == a@ + b@ + c@,
{
    let mut r = cat2(a, b);
    r.append(c);
    r
}

pub fn cat4(a: &str, b: &str, c: &str, d: &str) -> (r: String)
    ensures
        r@ == a@ + b@ + c@ + d@,
{
    let mut r = cat3(a, b, c);
    r.append(d);
    r
}

pub fn cat5(a: &str, b: &str, c: &str, d: &str, e: &str) -> (r: String)
    ensures
        r@ == a@ + b@ + c@ + d@ + e@,
{
    let mut r = cat4(a, b, c, d);
    r.append(e);
    r
}

pub fn cat6(a: &str, b: &str, c: &str, d: &str, e: &str, f: &str) -> (r: String)
    ensures
        r@ == a@ + b@ + c@ + d@ + e@ + f@,
{
    let mut r = cat5(a, b, c, d, e);
    r.append(f);
    r
}

pub fn cat7(a: &str, b: &str, c: &str, d: &str, e: &str, f: &str, g: &str) -> (r: String)
    ensures
        r@ == a@ + b@ + c@ + d@ + e@ + f@ + g@,
{
    let mut r = cat6(a, b, c, d, e, f);
    r.append(g);
    r
}

/// `t` followed by one line at indentation `d` for each of the first `k` items of `xs`.
pub open spec fn lines_of<A>(t: Seq<char>, d: nat, xs: Seq<A>, f: spec_fn(A) -> Seq<char>, k: int) -> Seq<
    char,
>
    decreases k,
{
    if k <= 0 || k > xs.len() {
        t
    } else {
        put(lines_of(t, d, xs, f, k - 1), d, f(xs[k - 1]))
    }
}

/// `x` holds, as one of its lines, `l` at indentation `d`.
pub open spec fn has_line(x: Seq<char>, d: nat, l: Seq<char>) -> bool {
    exists|p: Seq<char>| (#[trigger] put(p, d, l)).is_prefix_of(x)
}

/// Prefixes compose.
pub proof fn lemma_prefix_trans(a: Seq<char>, b: Seq<char>, c: Seq<char>)
    requires
        a.is_prefix_of(b),
        b.is_prefix_of(c),
    ensures
        a.is_prefix_of(c),
{
    assert(c.subrange(0, a.len() as int) =~= b.subrange(0, a.len() as int));
}

/// Writing a line keeps what was written before in front.
pub proof fn lemma_put_keeps(x: Seq<char>, d: nat, l: Seq<char>)
    ensures
        x.is_prefix_of(put(x, d, l)),
{
    assert(put(x, d, l).subrange(0, x.len() as int) =~= x);
}

/// Writing more lines keeps those written before in front.
pub proof fn lemma_lines_of_keeps<A>(t: Seq<char>, d: nat, xs: Seq<A>, f: spec_fn(A) -> Seq<char>, k: int, n: int)
    requires
        0 <= k <= n <= xs.len(),
    ensures
        lines_of(t, d, xs, f, k).is_prefix_of(lines_of(t, d, xs, f, n)),
    decreases n - k,
{
    if k < n {
        lemma_lines_of_keeps(t, d, xs, f, k + 1, n);
        lemma_put_keeps(lines_of(t, d, xs, f, k), d, f(xs[k]));
        lemma_prefix_trans(lines_of(t, d, xs, f, k), lines_of(t, d, xs, f, k + 1), lines_of(t, d, xs, f, n));
    } else {
        assert(lines_of(t, d, xs, f, k).subrange(0, lines_of(t, d, xs, f, k).len() as int) =~= lines_of(t, d, xs, f, k));
    }
}

/// The line `lines_of` writes for item `k` ends a prefix of what it writes.
pub proof fn lemma_lines_of_line<A>(t: Seq<char>, d: nat, xs: Seq<A>, f: spec_fn(A) -> Seq<char>, k: int, n: int)
    requires
        0 <= k < n <= xs.len(),
    ensures
        put(lines_of(t, d, xs, f, k), d, f(xs[k])).is_prefix_of(lines_of(t, d, xs, f, n)),
{
    lemma_lines_of_keeps(t, d, xs, f, k + 1, n);
}

/// Like `lines_of`, where making a line can fail; the first failure is the result.
pub open spec fn try_lines_of<A>(
    t: Seq<char>,
    d: nat,
    xs: Seq<A>,
    f: spec_fn(A) -> Result<Seq<char>, Seq<char>>,
    k: int,
) -> Result<Seq<char>, Seq<char>>
    decreases k,
{
    if k <= 0 || k > xs.len() {
        Ok(t)
    } else {
        match try_lines_of(t, d, xs, f, k - 1) {
            Err(e) => Err(e),
            Ok(t1) => match f(xs[k - 1]) {
                Err(e) => Err(e),
                Ok(l) => Ok(put(t1, d, l)),
            },
        }
    }
}

/// The opening and closing marks of a braced writer are not empty.
pub proof fn lemma_braces()
    ensures
        "{"@.len() == 1,
        "}"@.len() == 1,
{
    reveal_strlit("{");
    reveal_strlit("}");
}

/// Text written line by line with indentation; `open` and `close` (when not empty) are
/// written on lines of their own around each indented block.
pub struct CodeWriter {
    text: String,
    depth: usize,
    open: &'static str,
    close: &'static str,
}

impl CodeWriter {
    pub closed spec fn text(&self) -> Seq<char> {
        self.text@
    }

    pub closed spec fn depth(&self) -> nat {
        self.depth as nat
    }

    pub closed spec fn open_mark(&self) -> Seq<char> {
        self.open@
    }

    pub closed spec fn close_mark(&self) -> Seq<char> {
        self.close@
    }

    /// The writer uses braces around blocks.
    pub open spec fn braced(&self) -> bool {
        self.open_mark() == "{"@ && self.close_mark() == "}"@
    }

    /// `self` and `other` write blocks the same way.
    pub open spec fn same_marks(&self, other: &CodeWriter) -> bool {
        self.open_mark() == other.open_mark() && self.close_mark() == other.close_mark()
    }

    pub fn new(open: &'static str, close: &'static str) -> (r: CodeWriter)
        ensures
            r.text() == Seq::<char>::empty(),
            r.depth() == 0,
            r.open_mark() == open@,
            r.close_mark() == close@,
    {
        CodeWriter { text: String::new(), depth: 0, open, close }
    }

    /// Writes `s` on a line of its own at the current indentation.
    pub fn wln(&mut self, s: &str)
        ensures
            final(self).text() == put(old(self).text(), old(self).depth(), s@),
            final(self).depth() == old(self).depth(),
            final(self).same_marks(old(self)),
    {
        let ghost t0 = self.text@;
        let mut i: usize = 0;
        while i < self.depth
            invariant
                i <= self.depth,
                self.text@ == t0 + pad(i as nat),
                self.depth == old(self).depth,
                self.open == old(self).open,
                self.close == old(self).close,
            decreases self.depth - i,
        {
            self.text.append("    ");
            i = i + 1;
            assert(self.text@ =~= t0 + pad(i as nat));
        }
        self.text.append(s);
        self.text.append("\n");
        assert(self.text@ =~= put(t0, self.depth as nat, s@));
    }

    /// Writes `s` on a line of its own, `extra` levels deeper than the current indentation.
    pub fn wln_at(&mut self, extra: usize, s: &str)
        requires
            old(self).depth() + extra <= usize::MAX,
        ensures
            final(self).text() == put(old(self).text(), (old(self).depth() + extra) as nat, s@),
            final(self).depth() == old(self).depth(),
            final(self).same_marks(old(self)),
    {
        self.depth = self.depth + extra;
        self.wln(s);
        self.depth = self.depth - extra;
    }

    /// Writes an empty line.
    pub fn newline(&mut self)
        ensures
            final(self).text() == put(old(self).text(), old(self).depth(), ""@),
            final(self).depth() == old(self).depth(),
            final(self).same_marks(old(self)),
    {
        self.wln("");
    }

    /// Writes `s` as it is, without indentation or line break.
    pub fn write_str(&mut self, s: &str)
        ensures
            final(self).text() == old(self).text() + s@,
            final(self).depth() == old(self).depth(),
            final(self).same_marks(old(self)),
    {
        self.text.append(s);
    }

    /// Starts an indented block: the opening mark at the current indentation, then one
    /// level deeper.
    pub fn indent(&mut self)
        requires
            old(self).depth() < usize::MAX,
        ensures
            final(self).text() == (if old(self).open_mark().len() == 0 {
                old(self).text()
            } else {
                put(old(self).text(), old(self).depth(), old(self).open_mark())
            }),
            final(self).depth() == old(self).depth() + 1,
            final(self).same_marks(old(self)),
    {
        if !self.open.is_empty() {
            let o = self.open;
            self.wln(o);
        }
        self.depth = self.depth + 1;
    }

    /// Ends an indented block: one level back, then the closing mark.
    pub fn dedent(&mut self)
        requires
            old(self).depth() > 0,
        ensures
            final(self).depth() == old(self).depth() - 1,
            final(self).text() == (if old(self).close_mark().len() == 0 {
                old(self).text()
            } else {
                put(old(self).text(), (old(self).depth() - 1) as nat, old(self).close_mark())
            }),
            final(self).same_marks(old(self)),
    {
        self.depth = self.depth - 1;
        if !self.close.is_empty() {
            let c = self.close;
            self.wln(c);
        }
    }

    /// The text written.
    pub fn finish(self) -> (r: String)
        ensures
            r@ == self.text(),
    {
        self.text
    }
}

// ---------------------------------------------------------------------------
// Identifiers
// ---------------------------------------------------------------------------
pub open spec fn ident_char(c: char) -> bool {
    ('a' <= c && c <= 'z') || ('A' <= c && c <= 'Z') || ('0' <= c && c <= '9') || c == '_'
}

fn is_ident_char(c: char) -> (b: bool)
    ensures
        b == ident_char(c),
{
    ('a' <= c && c <= 'z') || ('A' <= c && c <= 'Z') || ('0' <= c && c <= '9') || c == '_'
}

/// What character `i` of a name (`c`) becomes in a Rust identifier.
pub open spec fn rust_piece(c: char, i: int) -> Seq<char> {
    if !ident_char(c) {
        seq!['_']
    } else if i == 0 && is_digit(c) {
        seq!['_', c]
    } else {
        seq![c]
    }
}

pub open spec fn rust_pieces(s: Seq<char>, k: int) -> Seq<char>
    decreases k,
{
    if k <= 0 || k > s.len() {
        Seq::empty()
    } else {
        rust_pieces(s, k - 1) + rust_piece(s[k - 1], k - 1)
    }
}

pub proof fn lemma_rust_pieces_len(s: Seq<char>, k: int)
    requires
        0 <= k <= s.len(),
    ensures
        rust_pieces(s, k).len() >= k,
    decreases k,
{
    if k > 0 {
        lemma_rust_pieces_len(s, k - 1);
    }
}

/// A name made into a Rust identifier: characters outside `[A-Za-z0-9_]` become `_`,
/// a leading digit gets a `_` before it, and the empty name becomes `_t`.
pub open spec fn rust_ident(s: Seq<char>) -> Seq<char> {
    let o = rust_pieces(s, s.len() as int);
    if o.len() == 0 {
        "_t"@
    } else {
        o
    }
}

/// Makes a name into a Rust identifier (see `rust_ident`).
pub fn sanitize(raw: &str) -> (r: String)
    ensures
        r@ == rust_ident(raw@),
{
    let chars = crate::text::chars_of(raw);
    let mut out = String::new();
    let mut i: usize = 0;
    while i < chars.len()
        invariant
            chars@ == raw@,
            i <= chars@.len(),
            out@ == rust_pieces(raw@, i as int),
        decreases chars.len() - i,
    {
        let ch = chars[i];
        if !is_ident_char(ch) {
            push_char(&mut out, '_');
        } else {
            if i == 0 && is_ascii_digit(ch) {
                push_char(&mut out, '_');
            }
            push_char(&mut out, ch);
        }
        i = i + 1;
        assert(out@ =~= rust_pieces(raw@, i as int));
    }
    proof {
        lemma_rust_pieces_len(raw@, raw@.len() as int);
    }
    if chars.len() == 0 {
        "_t".to_string()
    } else {
        out
    }
}

/// A non-empty run of `[A-Za-z0-9_]` that does not start with a digit.
pub open spec fn is_identifier(s: Seq<char>) -> bool {
    &&& s.len() > 0
    &&& !is_digit(s[0])
    &&& forall|i: int| 0 <= i < s.len() ==> ident_char(#[trigger] s[i])
}

proof fn lemma_rust_pieces_ident(s: Seq<char>, k: int)
    requires
        1 <= k <= s.len(),
    ensures
        is_identifier(rust_pieces(s, k)),
    decreases k,
{
    let r = rust_pieces(s, k);
    let p = rust_piece(s[k - 1], k - 1);
    if k == 1 {
        assert(rust_pieces(s, 0) =~= Seq::<char>::empty());
        assert(r =~= p);
    } else {
        lemma_rust_pieces_ident(s, k - 1);
        let a = rust_pieces(s, k - 1);
        assert(r =~= a + p);
        assert forall|i: int| 0 <= i < r.len() implies ident_char(#[trigger] r[i]) by {
            if i < a.len() {
                assert(r[i] == a[i]);
            } else {
                assert(r[i] == p[i - a.len()]);
            }
        }
        assert(r[0] == a[0]);
    }
}

/// `sanitize` always gives an identifier: letters, digits and `_` only, not starting
/// with a digit, never empty.
pub proof fn lemma_sanitize_gives_identifier(s: Seq<char>)
    ensures
        is_identifier(rust_ident(s)),
{
    if s.len() > 0 {
        lemma_rust_pieces_ident(s, s.len() as int);
    } else {
        assert(rust_pieces(s, 0) =~= Seq::<char>::empty());
        reveal_strlit("_t");
    }
}

proof fn lemma_ident_pieces_ident(s: Seq<char>, k: int)
    requires
        1 <= k <= s.len(),
    ensures
        is_identifier(ident_pieces(s, k)),
    decreases k,
{
    let r = ident_pieces(s, k);
    let p = ident_piece(s[k - 1], k - 1);
    if k == 1 {
        assert(ident_pieces(s, 0) =~= Seq::<char>::empty());
        assert(r =~= p);
    } else {
        lemma_ident_pieces_ident(s, k - 1);
        let a = ident_pieces(s, k - 1);
        assert(r =~= a + p);
        assert forall|i: int| 0 <= i < r.len() implies ident_char(#[trigger] r[i]) by {
            if i < a.len() {
                assert(r[i] == a[i]);
            } else {
                assert(r[i] == p[i - a.len()]);
            }
        }
        assert(r[0] == a[0]);
    }
}

/// `sanitize_ident` turns every non-empty name into an identifier.
pub proof fn lemma_sanitize_ident_gives_identifier(raw: Seq<char>, default: Seq<char>)
    requires
        raw.len() > 0,
    ensures
        is_identifier(sanitized_ident(raw, default)),
{
    lemma_ident_pieces_ident(raw, raw.len() as int);
}

/// What character `i` of a name (`c`) becomes under `sanitize_ident`.
pub open spec fn ident_piece(c: char, i: int) -> Seq<char> {
    if ident_char(c) {
        if i == 0 && is_digit(c) {
            seq!['_', c]
        } else {
            seq![c]
        }
    } else {
        seq!['_']
    }
}

pub open spec fn ident_pieces(s: Seq<char>, k: int) -> Seq<char>
    decreases k,
{
    if k <= 0 || k > s.len() {
        Seq::empty()
    } else {
        ident_pieces(s, k - 1) + ident_piece(s[k - 1], k - 1)
    }
}

pub proof fn lemma_ident_pieces_len(s: Seq<char>, k: int)
    requires
        0 <= k <= s.len(),
    ensures
        ident_pieces(s, k).len() >= k,
    decreases k,
{
    if k > 0 {
        lemma_ident_pieces_len(s, k - 1);
    }
}

/// Keeps `[A-Za-z0-9_]`, writes one `_` for anything else, puts `_`
/// before a leading digit, and falls back to `default` for an empty name.
pub open spec fn sanitized_ident(raw: Seq<char>, default: Seq<char>) -> Seq<char> {
    let o = ident_pieces(raw, raw.len() as int);
    if o.len() == 0 {
        default
    } else {
        o
    }
}

/// Sanitizes an identifier: allows `[A-Za-z0-9_]` and replaces other characters with
/// `_`, prefixing `_` to a leading digit; `default` replaces an empty result.
pub fn sanitize_ident(raw: &str, default: &str) -> (r: String)
    ensures
        r@ == sanitized_ident(raw@, default@),
{
    let chars = crate::text::chars_of(raw);
    let mut s = String::new();
    let mut i: usize = 0;
    while i < chars.len()
        invariant
            chars@ == raw@,
            i <= chars@.len(),
            s@ == ident_pieces(raw@, i as int),
        decreases chars.len() - i,
    {
        let ch = chars[i];
        if is_ident_char(ch) {
            if i == 0 && is_ascii_digit(ch) {
                push_char(&mut s, '_');
            }
            push_char(&mut s, ch);
        } else {
            push_char(&mut s, '_');
        }
        i = i + 1;
        assert(s@ =~= ident_pieces(raw@, i as int));
    }
    proof {
        lemma_ident_pieces_len(raw@, raw@.len() as int);
    }
    if chars.len() == 0 {
        s.append(default);
    }
    s
}

// ---------------------------------------------------------------------------
// A text emitter over a finished module
// ---------------------------------------------------------------------------
/// Minimal text emitter with indentation and name lookup.
pub struct TextEmitter<'a> {
    pub module: &'a Module,
    pub out: String,
    pub indent: usize,
}

/// The name of `tid` in a module's inverse name table.
pub open spec fn names_id(tid: TypeID) -> spec_fn((TypeID, Seq<char>)) -> bool {
    |e: (TypeID, Seq<char>)| e.0 == tid
}

pub open spec fn inv_name(inv: Seq<(TypeID, Seq<char>)>, tid: TypeID) -> Option<Seq<char>> {
    match first_from(inv, names_id(tid), 0) {
        Some(i) => Some(inv[i].1),
        None => None,
    }
}

pub open spec fn inv_model(v: Seq<(TypeID, String)>) -> Seq<(TypeID, Seq<char>)> {
    v.map_values(|e: (TypeID, String)| (e.0, e.1@))
}

/// What `indent` makes of an emitter's text and indentation.
pub open spec fn indent_state(s: (Seq<char>, nat)) -> (Seq<char>, nat) {
    (s.0, s.1 + 1)
}

/// What `dedent` makes of an emitter's text and indentation.
pub open spec fn dedent_state(s: (Seq<char>, nat)) -> (Seq<char>, nat) {
    (s.0, (s.1 - 1) as nat)
}

impl<'a> TextEmitter<'a> {
    /// The emitter's text and indentation.
    pub open spec fn state(&self) -> (Seq<char>, nat) {
        (self.out@, self.indent as nat)
    }
}

/// `indent` followed by `dedent` gives back the emitter's text and indentation.
pub proof fn lemma_indent_dedent_restores(s: (Seq<char>, nat))
    ensures
        dedent_state(indent_state(s)) == s,
{
}

impl<'a> TextEmitter<'a> {
    pub fn new(module: &'a Module) -> (r: Self)
        ensures
            r.module == module,
            r.out@ == Seq::<char>::empty(),
            r.indent == 0,
    {
        TextEmitter { module, out: String::new(), indent: 0 }
    }

    /// The text written.
    pub fn finish(self) -> (r: String)
        ensures
            r@ == self.out@,
    {
        self.out
    }

    /// Writes `s` on a line of its own at the current indentation.
    pub fn wln(&mut self, s: &str)
        ensures
            final(self).out@ == put(old(self).out@, old(self).indent as nat, s@),
            final(self).indent == old(self).indent,
            final(self).module == old(self).module,
    {
        let ghost t0 = self.out@;
        let mut i: usize = 0;
        while i < self.indent
            invariant
                i <= self.indent,
                self.out@ == t0 + pad(i as nat),
                self.indent == old(self).indent,
                self.module == old(self).module,
            decreases self.indent - i,
        {
            self.out.append("    ");
            i = i + 1;
            assert(self.out@ =~= t0 + pad(i as nat));
        }
        self.out.append(s);
        self.out.append("\n");
        assert(self.out@ =~= put(t0, self.indent as nat, s@));
    }

    pub fn indent(&mut self)
        requires
            old(self).indent < usize::MAX,
        ensures
            final(self).state() == indent_state(old(self).state()),
            final(self).indent == old(self).indent + 1,
            final(self).out@ == old(self).out@,
            final(self).module == old(self).module,
    {
        self.indent = self.indent + 1;
    }

    pub fn dedent(&mut self)
        requires
            old(self).indent > 0,
        ensures
            final(self).state() == dedent_state(old(self).state()),
            final(self).indent == old(self).indent - 1,
            final(self).out@ == old(self).out@,
            final(self).module == old(self).module,
    {
        self.indent = self.indent - 1;
    }

    /// The name of `tid` in the module.
    pub fn name_of(&self, tid: TypeID) -> (r: Option<&str>)
        ensures
            match (r, inv_name(inv_model(self.module.inv_type_map@), tid)) {
                (Some(s), Some(n)) => s@ == n,
                (None, None) => true,
                _ => false,
            },
    {
        let ghost inv = inv_model(self.module.inv_type_map@);
        let ghost p = names_id(tid);
        let mut i: usize = 0;
        while i < self.module.inv_type_map.len()
            invariant
                inv == inv_model(self.module.inv_type_map@),
                p == names_id(tid),
                i <= inv.len(),
                first_from(inv, p, 0) == first_from(inv, p, i as int),
            decreases self.module.inv_type_map.len() - i,
        {
            let e = &self.module.inv_type_map[i];
            assert(inv[i as int] == (e.0, e.1@));
            if e.0 == tid {
                assert(p(inv[i as int]));
                return Some(e.1.as_str());
            }
            assert(!p(inv[i as int]));
            i = i + 1;
        }
        None
    }
}

} // verus!
