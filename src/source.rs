//! Static mode: finds the subcommand-set enums declared in source text and
//! checks the order of their variants.
use vstd::prelude::*;
use vstd::relations::sorted_by;
use crate::lex::{lexed, tokenize, tviews, SourceError, Token, TokenView};
use crate::naming::{external_name, external_name_of};
use crate::order::{lemma_views_push, name_leq, names_in_order, sorted_names, views};
use crate::tree::{violation_views, Violation, ViolationKind, ViolationView};

verus! {

/// A subcommand-set declaration: the enum's name and the external names of
/// its variants, in declared order.
#[derive(Debug)]
pub struct Declaration {
    pub name: String,
    pub variants: Vec<String>,
}

/// A declaration as plain values.
pub struct DeclView {
    pub name: Seq<char>,
    pub variants: Seq<Seq<char>>,
}

impl View for Declaration {
    type V = DeclView;

    open spec fn view(&self) -> DeclView {
        DeclView { name: self.name@, variants: views(self.variants@) }
    }
}

/// The view of each declaration of a sequence.
pub open spec fn decl_views(ds: Seq<Declaration>) -> Seq<DeclView> {
    ds.map_values(|d: Declaration| d@)
}

/// Whether `t` is the identifier `w`.
pub open spec fn is_word(t: TokenView, w: Seq<char>) -> bool {
    match t {
        TokenView::Ident(s) => s == w,
        _ => false,
    }
}

/// Whether `t` is the punctuation `c`.
pub open spec fn is_punct(t: TokenView, c: char) -> bool {
    match t {
        TokenView::Punct(d) => d == c,
        _ => false,
    }
}

/// Whether `t` opens a delimited group.
pub open spec fn opens(t: TokenView) -> bool {
    is_punct(t, '(') || is_punct(t, '[') || is_punct(t, '{')
}

/// Whether `t` closes a delimited group.
pub open spec fn closes(t: TokenView) -> bool {
    is_punct(t, ')') || is_punct(t, ']') || is_punct(t, '}')
}

/// The value of `t` if it is a string literal.
pub open spec fn str_value(t: TokenView) -> Option<Seq<char>> {
    match t {
        TokenView::Str(v) => Some(v),
        _ => None,
    }
}

/// Where the group that is open `depth` deep at `j` closes.
pub open spec fn close_from(ts: Seq<TokenView>, j: int, depth: nat) -> Option<int>
    decreases ts.len() - j,
{
    if j < 0 || j >= ts.len() {
        None
    } else if opens(ts[j]) {
        close_from(ts, j + 1, depth + 1)
    } else if closes(ts[j]) {
        if depth == 0 {
            None
        } else if depth == 1 {
            Some(j)
        } else {
            close_from(ts, j + 1, (depth - 1) as nat)
        }
    } else if depth == 0 {
        None
    } else {
        close_from(ts, j + 1, depth)
    }
}

/// The token that closes the group opened at `open`.
pub open spec fn close_of(ts: Seq<TokenView>, open: int) -> Option<int> {
    close_from(ts, open, 0)
}

/// The explicit name among the tokens `lo..hi` of an attribute: the value
/// of its first `name = "<value>"`.
pub open spec fn explicit_name_in(ts: Seq<TokenView>, lo: int, hi: int) -> Option<Seq<char>>
    decreases hi - lo,
{
    if lo < 0 || lo + 2 >= hi {
        None
    } else if is_word(ts[lo], "name"@) && is_punct(ts[lo + 1], '=') && str_value(ts[lo + 2]) is Some {
        str_value(ts[lo + 2])
    } else {
        explicit_name_in(ts, lo + 1, hi)
    }
}

/// Whether the attribute held by tokens `lo..hi` derives `Subcommand`.
pub open spec fn derives_subcommand(ts: Seq<TokenView>, lo: int, hi: int) -> bool {
    0 <= lo < hi && is_word(ts[lo], "derive"@) && exists|k: int|
        lo < k < hi && #[trigger] is_word(ts[k], "Subcommand"@)
}

/// The position after the generic parameters that start at `j`, read with
/// `depth` angle brackets open.
pub open spec fn angle_end(ts: Seq<TokenView>, j: int, depth: nat) -> int
    decreases ts.len() - j,
{
    if j < 0 || j >= ts.len() {
        j
    } else if is_punct(ts[j], '<') {
        angle_end(ts, j + 1, depth + 1)
    } else if is_punct(ts[j], '>') && depth > 0 {
        if depth == 1 {
            j + 1
        } else {
            angle_end(ts, j + 1, (depth - 1) as nat)
        }
    } else {
        angle_end(ts, j + 1, depth)
    }
}

/// The position after the generic parameters at `j`, if there are any.
pub open spec fn generics_end(ts: Seq<TokenView>, j: int) -> int {
    if 0 <= j < ts.len() && is_punct(ts[j], '<') {
        angle_end(ts, j, 0)
    } else {
        j
    }
}

/// The brace that opens an enum's body, searched from `j`.
pub open spec fn brace_from(ts: Seq<TokenView>, j: int) -> Result<int, SourceError>
    decreases ts.len() - j,
{
    if j < 0 || j >= ts.len() {
        Err(SourceError::MalformedDeclaration)
    } else if is_punct(ts[j], '{') {
        Ok(j)
    } else if is_punct(ts[j], ';') {
        Err(SourceError::MalformedDeclaration)
    } else {
        brace_from(ts, j + 1)
    }
}

/// Reads the attributes of a variant from `k`, before `close`: the position
/// after them and the first explicit name they give.
pub open spec fn attrs_from(ts: Seq<TokenView>, k: int, close: int, explicit: Option<Seq<char>>) -> Result<
    (int, Option<Seq<char>>),
    SourceError,
>
    decreases close - k,
{
    if 0 <= k && k + 1 < close && is_punct(ts[k], '#') && is_punct(ts[k + 1], '[') {
        match close_of(ts, k + 1) {
            None => Err(SourceError::MalformedDeclaration),
            Some(c) => if c >= close || c <= k {
                Err(SourceError::MalformedDeclaration)
            } else {
                attrs_from(
                    ts,
                    c + 1,
                    close,
                    if explicit is None {
                        explicit_name_in(ts, k + 2, c)
                    } else {
                        explicit
                    },
                )
            },
        }
    } else {
        Ok((k, explicit))
    }
}

/// The position after the rest of a variant (its fields, its value and the
/// comma after it), read from `k` before `close`.
pub open spec fn variant_end(ts: Seq<TokenView>, k: int, close: int) -> Result<int, SourceError>
    decreases close - k,
{
    if k < 0 || k >= close {
        Ok(k)
    } else if is_punct(ts[k], ',') {
        Ok(k + 1)
    } else if opens(ts[k]) {
        match close_of(ts, k) {
            None => Err(SourceError::MalformedDeclaration),
            Some(c) => if c >= close || c < k {
                Err(SourceError::MalformedDeclaration)
            } else {
                variant_end(ts, c + 1, close)
            },
        }
    } else {
        variant_end(ts, k + 1, close)
    }
}

/// The external names of the variants from `k` to the closing brace
/// `close`, after the names `acc` read before `k`.
pub open spec fn variants_from(ts: Seq<TokenView>, k: int, close: int, acc: Seq<Seq<char>>) -> Result<
    Seq<Seq<char>>,
    SourceError,
>
    decreases close - k,
    via variants_from_decreases
{
    if k < 0 || k >= close || close >= ts.len() {
        Ok(acc)
    } else {
        match attrs_from(ts, k, close, None) {
            Err(e) => Err(e),
            Ok((a, explicit)) => if a >= close {
                Err(SourceError::MalformedDeclaration)
            } else {
                match ts[a] {
                    TokenView::Ident(id) => match variant_end(ts, a + 1, close) {
                        Err(e) => Err(e),
                        Ok(e) => variants_from(ts, e, close, acc.push(external_name(id, explicit))),
                    },
                    _ => Err(SourceError::MalformedDeclaration),
                }
            },
        }
    }
}

proof fn lemma_attrs_from(ts: Seq<TokenView>, k: int, close: int, explicit: Option<Seq<char>>)
    ensures
        attrs_from(ts, k, close, explicit) matches Ok((a, _)) ==> a >= k,
    decreases close - k,
{
    if 0 <= k && k + 1 < close && is_punct(ts[k], '#') && is_punct(ts[k + 1], '[') {
        match close_of(ts, k + 1) {
            None => {},
            Some(c) => if c >= close || c <= k {
            } else {
                lemma_attrs_from(
                    ts,
                    c + 1,
                    close,
                    if explicit is None {
                        explicit_name_in(ts, k + 2, c)
                    } else {
                        explicit
                    },
                );
            },
        }
    }
}

proof fn lemma_variant_end(ts: Seq<TokenView>, k: int, close: int)
    ensures
        variant_end(ts, k, close) matches Ok(e) ==> e >= k && (k <= close ==> e <= close),
    decreases close - k,
{
    if k < 0 || k >= close {
    } else if is_punct(ts[k], ',') {
    } else if opens(ts[k]) {
        match close_of(ts, k) {
            None => {},
            Some(c) => if c >= close || c < k {
            } else {
                lemma_variant_end(ts, c + 1, close);
            },
        }
    } else {
        lemma_variant_end(ts, k + 1, close);
    }
}

#[via_fn]
proof fn variants_from_decreases(ts: Seq<TokenView>, k: int, close: int, acc: Seq<Seq<char>>) {
    if 0 <= k < close && close < ts.len() {
        lemma_attrs_from(ts, k, close, None);
        match attrs_from(ts, k, close, None) {
            Ok((a, _)) => {
                lemma_variant_end(ts, a + 1, close);
            },
            Err(_) => {},
        }
    }
}

/// Scans the tokens from `k` for subcommand-set enums, after the
/// declarations `acc` found before `k`; `pending` tells whether the
/// attributes just read derive `Subcommand`.
pub open spec fn scan(ts: Seq<TokenView>, k: int, pending: bool, acc: Seq<DeclView>) -> Result<
    Seq<DeclView>,
    SourceError,
>
    decreases ts.len() - k,
    via scan_decreases
{
    if k < 0 || k >= ts.len() {
        Ok(acc)
    } else if k + 1 < ts.len() && is_punct(ts[k], '#') && is_punct(ts[k + 1], '[') {
        match close_of(ts, k + 1) {
            None => Err(SourceError::UnbalancedDelimiter),
            Some(c) => if c <= k {
                Err(SourceError::UnbalancedDelimiter)
            } else {
                scan(ts, c + 1, pending || derives_subcommand(ts, k + 2, c), acc)
            },
        }
    } else if is_word(ts[k], "pub"@) {
        if k + 1 < ts.len() && is_punct(ts[k + 1], '(') {
            match close_of(ts, k + 1) {
                None => Err(SourceError::UnbalancedDelimiter),
                Some(c) => if c <= k {
                    Err(SourceError::UnbalancedDelimiter)
                } else {
                    scan(ts, c + 1, pending, acc)
                },
            }
        } else {
            scan(ts, k + 1, pending, acc)
        }
    } else if is_word(ts[k], "enum"@) && k + 1 < ts.len() {
        match ts[k + 1] {
            TokenView::Ident(name) => match brace_from(ts, generics_end(ts, k + 2)) {
                Err(e) => Err(e),
                Ok(j) => match close_of(ts, j) {
                    None => Err(SourceError::UnbalancedDelimiter),
                    Some(close) => if close <= k {
                        Err(SourceError::UnbalancedDelimiter)
                    } else if pending {
                        match variants_from(ts, j + 1, close, Seq::empty()) {
                            Err(e) => Err(e),
                            Ok(vs) => scan(
                                ts,
                                close + 1,
                                false,
                                acc.push(DeclView { name, variants: vs }),
                            ),
                        }
                    } else {
                        scan(ts, close + 1, false, acc)
                    },
                },
            },
            _ => Err(SourceError::MalformedDeclaration),
        }
    } else {
        scan(ts, k + 1, false, acc)
    }
}

proof fn lemma_close_from(ts: Seq<TokenView>, j: int, depth: nat)
    ensures
        close_from(ts, j, depth) matches Some(c) ==> j <= c < ts.len(),
    decreases ts.len() - j,
{
    if j < 0 || j >= ts.len() {
    } else if opens(ts[j]) {
        lemma_close_from(ts, j + 1, depth + 1);
    } else if closes(ts[j]) {
        if depth > 1 {
            lemma_close_from(ts, j + 1, (depth - 1) as nat);
        }
    } else if depth > 0 {
        lemma_close_from(ts, j + 1, depth);
    }
}

#[via_fn]
proof fn scan_decreases(ts: Seq<TokenView>, k: int, pending: bool, acc: Seq<DeclView>) {
    lemma_close_from(ts, k + 1, 0);
    if 0 <= k + 2 <= ts.len() {
        let g = generics_end(ts, k + 2);
        match brace_from(ts, g) {
            Ok(j) => {
                lemma_close_from(ts, j, 0);
            },
            Err(_) => {},
        }
    }
}

/// Every subcommand-set declaration among the tokens, in order: each enum
/// whose attributes (with only attributes and `pub` between them and the
/// enum) derive `Subcommand`, with the external names of its variants.
pub open spec fn decls_in(ts: Seq<TokenView>) -> Result<Seq<DeclView>, SourceError> {
    scan(ts, 0, false, Seq::empty())
}

fn word_is(t: &Token, w: &str) -> (r: bool)
    ensures
        r == is_word(t@, w@),
{
    match t {
        Token::Ident(s) => {
            let x = String::from_str(w);
            *s == x
        },
        _ => false,
    }
}

fn punct_is(t: &Token, c: char) -> (r: bool)
    ensures
        r == is_punct(t@, c),
{
    match t {
        Token::Punct(d) => *d == c,
        _ => false,
    }
}

fn is_open(t: &Token) -> (r: bool)
    ensures
        r == opens(t@),
{
    punct_is(t, '(') || punct_is(t, '[') || punct_is(t, '{')
}

fn is_close(t: &Token) -> (r: bool)
    ensures
        r == closes(t@),
{
    punct_is(t, ')') || punct_is(t, ']') || punct_is(t, '}')
}

/// Index of the delimiter that closes the group opened at `open`.
pub fn matching_close(ts: &Vec<Token>, open: usize) -> (r: Option<usize>)
    ensures
        match r {
            Some(j) => close_of(tviews(ts@), open as int) == Some(j as int) && open < j < ts.len(),
            None => close_of(tviews(ts@), open as int) is None,
        },
{
    let ghost tv = tviews(ts@);
    let mut depth: usize = 0;
    let mut j: usize = open;
    while j < ts.len()
        invariant
            open <= j,
            depth <= j - open,
            depth > 0 ==> j > open,
            tv == tviews(ts@),
            close_of(tv, open as int) == close_from(tv, j as int, depth as nat),
        decreases ts.len() - j,
    {
        assert(tv[j as int] == ts@[j as int]@);
        if is_open(&ts[j]) {
            depth = depth + 1;
        } else if is_close(&ts[j]) {
            if depth == 0 {
                return None;
            } else if depth == 1 {
                return Some(j);
            }
            depth = depth - 1;
        } else if depth == 0 {
            return None;
        }
        j = j + 1;
    }
    None
}

/// The explicit name in the attribute held by tokens `lo..hi`, if any.
pub fn explicit_name(ts: &Vec<Token>, lo: usize, hi: usize) -> (r: Option<String>)
    requires
        lo <= hi <= ts.len(),
    ensures
        match r {
            Some(v) => explicit_name_in(tviews(ts@), lo as int, hi as int) == Some(v@),
            None => explicit_name_in(tviews(ts@), lo as int, hi as int) is None,
        },
{
    let ghost tv = tviews(ts@);
    let mut k: usize = lo;
    while k < hi && hi - k > 2
        invariant
            lo <= k <= hi,
            hi <= ts.len(),
            tv == tviews(ts@),
            explicit_name_in(tv, lo as int, hi as int) == explicit_name_in(tv, k as int, hi as int),
        decreases hi - k,
    {
        assert(tv[k as int] == ts@[k as int]@ && tv[k + 2] == ts@[k + 2]@);
        if word_is(&ts[k], "name") && punct_is(&ts[k + 1], '=') {
            match &ts[k + 2] {
                Token::Str(v) => {
                    return Some(v.clone());
                },
                _ => {},
            }
        }
        k = k + 1;
    }
    None
}

/// Whether the attribute held by tokens `lo..hi` derives `Subcommand`.
pub fn has_subcommand_derive(ts: &Vec<Token>, lo: usize, hi: usize) -> (r: bool)
    requires
        hi <= ts.len(),
    ensures
        r == derives_subcommand(tviews(ts@), lo as int, hi as int),
{
    let ghost tv = tviews(ts@);
    if lo >= hi || !word_is(&ts[lo], "derive") {
        return false;
    }
    let mut k: usize = lo + 1;
    while k < hi
        invariant
            lo < k <= hi,
            hi <= ts.len(),
            tv == tviews(ts@),
            is_word(tv[lo as int], "derive"@),
            forall|q: int| lo < q < k ==> !#[trigger] is_word(tv[q], "Subcommand"@),
        decreases hi - k,
    {
        if word_is(&ts[k], "Subcommand") {
            assert(is_word(tv[k as int], "Subcommand"@));
            return true;
        }
        k = k + 1;
    }
    false
}

fn generics_end_of(ts: &Vec<Token>, j: usize) -> (r: usize)
    requires
        j <= ts.len(),
    ensures
        r as int == generics_end(tviews(ts@), j as int),
{
    let ghost tv = tviews(ts@);
    if j >= ts.len() || !punct_is(&ts[j], '<') {
        return j;
    }
    let mut depth: usize = 0;
    let mut k: usize = j;
    while k < ts.len()
        invariant
            j <= k <= ts.len(),
            depth <= k - j,
            tv == tviews(ts@),
            generics_end(tv, j as int) == angle_end(tv, k as int, depth as nat),
        decreases ts.len() - k,
    {
        if punct_is(&ts[k], '<') {
            depth = depth + 1;
        } else if punct_is(&ts[k], '>') && depth > 0 {
            if depth == 1 {
                return k + 1;
            }
            depth = depth - 1;
        }
        k = k + 1;
    }
    k
}

fn brace_from_of(ts: &Vec<Token>, j: usize) -> (r: Result<usize, SourceError>)
    ensures
        match r {
            Ok(b) => brace_from(tviews(ts@), j as int) == Ok::<int, SourceError>(b as int) && b
                < ts.len(),
            Err(e) => brace_from(tviews(ts@), j as int) == Err::<int, SourceError>(e),
        },
{
    let ghost tv = tviews(ts@);
    let mut k: usize = j;
    while k < ts.len()
        invariant
            j <= k,
            tv == tviews(ts@),
            brace_from(tv, j as int) == brace_from(tv, k as int),
        decreases ts.len() - k,
    {
        if punct_is(&ts[k], '{') {
            return Ok(k);
        }
        if punct_is(&ts[k], ';') {
            return Err(SourceError::MalformedDeclaration);
        }
        k = k + 1;
    }
    Err(SourceError::MalformedDeclaration)
}

fn variant_end_of(ts: &Vec<Token>, k: usize, close: usize) -> (r: Result<usize, SourceError>)
    requires
        k <= close < ts.len(),
    ensures
        match r {
            Ok(e) => variant_end(tviews(ts@), k as int, close as int) == Ok::<int, SourceError>(
                e as int,
            ) && k <= e <= close,
            Err(e) => variant_end(tviews(ts@), k as int, close as int) == Err::<int, SourceError>(e),
        },
{
    let ghost tv = tviews(ts@);
    let mut j = k;
    while j < close
        invariant
            k <= j <= close,
            close < ts.len(),
            tv == tviews(ts@),
            variant_end(tv, k as int, close as int) == variant_end(tv, j as int, close as int),
        decreases close - j,
    {
        if punct_is(&ts[j], ',') {
            return Ok(j + 1);
        }
        if is_open(&ts[j]) {
            match matching_close(ts, j) {
                Some(c) => {
                    if c >= close || c < j {
                        return Err(SourceError::MalformedDeclaration);
                    }
                    j = c + 1;
                },
                None => {
                    return Err(SourceError::MalformedDeclaration);
                },
            }
        } else {
            j = j + 1;
        }
    }
    Ok(j)
}

/// The external names of the variants declared in the braces at `open` and
/// `close`.
fn enum_variants(ts: &Vec<Token>, open: usize, close: usize) -> (r: Result<Vec<String>, SourceError>)
    requires
        open < close < ts.len(),
    ensures
        match r {
            Ok(vs) => variants_from(tviews(ts@), open + 1, close as int, Seq::empty()) == Ok::<
                Seq<Seq<char>>,
                SourceError,
            >(views(vs@)),
            Err(e) => variants_from(tviews(ts@), open + 1, close as int, Seq::empty()) == Err::<
                Seq<Seq<char>>,
                SourceError,
            >(e),
        },
{
    let ghost tv = tviews(ts@);
    let mut names: Vec<String> = Vec::new();
    let mut k: usize = open + 1;
    assert(views(names@) =~= Seq::empty());
    while k < close
        invariant
            open < k,
            k <= close + 1,
            close < ts.len(),
            tv == tviews(ts@),
            variants_from(tv, open + 1, close as int, Seq::empty()) == variants_from(
                tv,
                k as int,
                close as int,
                views(names@),
            ),
        decreases close + 1 - k,
    {
        let ghost k0 = k;
        let mut explicit: Option<String> = None;
        while k + 1 < close && punct_is(&ts[k], '#') && punct_is(&ts[k + 1], '[')
            invariant
                k0 <= k <= close,
                open < k0 < close,
                close < ts.len(),
                tv == tviews(ts@),
                variants_from(tv, open + 1, close as int, Seq::empty()) == variants_from(
                    tv,
                    k0 as int,
                    close as int,
                    views(names@),
                ),
                attrs_from(tv, k0 as int, close as int, None) == attrs_from(
                    tv,
                    k as int,
                    close as int,
                    match explicit {
                        Some(v) => Some(v@),
                        None => None,
                    },
                ),
            decreases close - k,
        {
            let c = match matching_close(ts, k + 1) {
                Some(c) => c,
                None => {
                    return Err(SourceError::MalformedDeclaration);
                },
            };
            if c >= close || c <= k {
                return Err(SourceError::MalformedDeclaration);
            }
            if explicit.is_none() {
                explicit = explicit_name(ts, k + 2, c);
            }
            k = c + 1;
        }
        if k >= close {
            return Err(SourceError::MalformedDeclaration);
        }
        let ident = match &ts[k] {
            Token::Ident(s) => s,
            _ => {
                return Err(SourceError::MalformedDeclaration);
            },
        };
        let v = external_name_of(ident.as_str(), explicit);
        let a = k;
        k = match variant_end_of(ts, a + 1, close) {
            Ok(e) => e,
            Err(e) => {
                return Err(e);
            },
        };
        assert(tv[a as int] == ts@[a as int]@);
        proof {
            lemma_views_push(names@, v);
        }
        names.push(v);
    }
    Ok(names)
}

/// Finds, in the tokens of a source file, each enum whose attributes derive
/// `Subcommand`, with the external names of its variants in declared order.
/// Other declarations are passed over.
pub fn find_declarations(ts: &Vec<Token>) -> (r: Result<Vec<Declaration>, SourceError>)
    ensures
        match r {
            Ok(ds) => decls_in(tviews(ts@)) == Ok::<Seq<DeclView>, SourceError>(decl_views(ds@)),
            Err(e) => decls_in(tviews(ts@)) == Err::<Seq<DeclView>, SourceError>(e),
        },
{
    let ghost tv = tviews(ts@);
    let mut out: Vec<Declaration> = Vec::new();
    let mut pending = false;
    let mut k: usize = 0;
    assert(decl_views(out@) =~= Seq::empty());
    while k < ts.len()
        invariant
            k <= ts.len(),
            tv == tviews(ts@),
            decls_in(tv) == scan(tv, k as int, pending, decl_views(out@)),
        decreases ts.len() - k,
    {
        assert(tv[k as int] == ts@[k as int]@);
        if k + 1 < ts.len() && punct_is(&ts[k], '#') && punct_is(&ts[k + 1], '[') {
            let c = match matching_close(ts, k + 1) {
                Some(c) => c,
                None => {
                    return Err(SourceError::UnbalancedDelimiter);
                },
            };
            if c <= k {
                return Err(SourceError::UnbalancedDelimiter);
            }
            if has_subcommand_derive(ts, k + 2, c) {
                pending = true;
            }
            k = c + 1;
        } else if word_is(&ts[k], "pub") {
            if k + 1 < ts.len() && punct_is(&ts[k + 1], '(') {
                let c = match matching_close(ts, k + 1) {
                    Some(c) => c,
                    None => {
                        return Err(SourceError::UnbalancedDelimiter);
                    },
                };
                if c <= k {
                    return Err(SourceError::UnbalancedDelimiter);
                }
                k = c + 1;
            } else {
                k = k + 1;
            }
        } else if word_is(&ts[k], "enum") && k + 1 < ts.len() {
            assert(tv[k + 1] == ts@[k + 1]@);
            let name = match &ts[k + 1] {
                Token::Ident(s) => s.clone(),
                _ => {
                    return Err(SourceError::MalformedDeclaration);
                },
            };
            let g = generics_end_of(ts, k + 2);
            let j = match brace_from_of(ts, g) {
                Ok(j) => j,
                Err(e) => {
                    return Err(e);
                },
            };
            let close = match matching_close(ts, j) {
                Some(c) => c,
                None => {
                    return Err(SourceError::UnbalancedDelimiter);
                },
            };
            if close <= k {
                return Err(SourceError::UnbalancedDelimiter);
            }
            if pending {
                if close <= j {
                    proof {
                        assert(tv[j as int] == ts@[j as int]@);
                    }
                }
                let variants = if close > j {
                    match enum_variants(ts, j, close) {
                        Ok(v) => v,
                        Err(e) => {
                            return Err(e);
                        },
                    }
                } else {
                    Vec::new()
                };
                let d = Declaration { name, variants };
                proof {
                    assert(decl_views(out@.push(d)) =~= decl_views(out@).push(d@));
                }
                out.push(d);
            }
            pending = false;
            k = close + 1;
        } else {
            pending = false;
            k = k + 1;
        }
    }
    Ok(out)
}

/// The defect found in the order of a declaration's variants, if any.
pub open spec fn declaration_findings(d: DeclView) -> Seq<ViolationView> {
    if sorted_by(d.variants, name_leq()) {
        Seq::empty()
    } else {
        seq![
            ViolationView {
                kind: ViolationKind::SubcommandOrder,
                path: seq![d.name],
                actual: d.variants,
                expected: d.variants.sort_by(name_leq()),
            },
        ]
    }
}

/// The defects of the declarations, in order.
pub open spec fn declarations_findings(ds: Seq<DeclView>) -> Seq<ViolationView>
    decreases ds.len(),
{
    if ds.len() == 0 {
        Seq::empty()
    } else {
        declarations_findings(ds.drop_last()) + declaration_findings(ds.last())
    }
}

/// Checks the variant order of each declaration, collecting every defect;
/// each is reported under the declaration's name.
pub fn check_declarations(ds: &Vec<Declaration>) -> (r: Vec<Violation>)
    ensures
        violation_views(r@) == declarations_findings(decl_views(ds@)),
{
    let ghost dv = decl_views(ds@);
    let mut out: Vec<Violation> = Vec::new();
    let mut i: usize = 0;
    while i < ds.len()
        invariant
            i <= ds.len(),
            dv == decl_views(ds@),
            violation_views(out@) == declarations_findings(dv.subrange(0, i as int)),
        decreases ds.len() - i,
    {
        let ghost next = dv.subrange(0, i + 1);
        assert(next.drop_last() =~= dv.subrange(0, i as int));
        assert(next.last() == ds@[i as int]@);
        let d = &ds[i];
        if !names_in_order(&d.variants) {
            let expected = sorted_names(&d.variants);
            let mut path: Vec<String> = Vec::new();
            proof {
                lemma_views_push(path@, d.name);
            }
            path.push(d.name.clone());
            assert(views(path@) =~= seq![d.name@]);
            let mut actual: Vec<String> = Vec::new();
            let mut q: usize = 0;
            while q < d.variants.len()
                invariant
                    q <= d.variants.len(),
                    views(actual@) == views(d.variants@).subrange(0, q as int),
                decreases d.variants.len() - q,
            {
                proof {
                    lemma_views_push(actual@, d.variants@[q as int]);
                }
                actual.push(d.variants[q].clone());
                assert(views(actual@) =~= views(d.variants@).subrange(0, q + 1));
                q = q + 1;
            }
            assert(views(d.variants@).subrange(0, d.variants.len() as int) =~= views(d.variants@));
            out.push(Violation { kind: ViolationKind::SubcommandOrder, path, actual, expected });
        }
        assert(violation_views(out@) =~= declarations_findings(next));
        i = i + 1;
    }
    assert(dv.subrange(0, ds.len() as int) =~= dv);
    out
}

/// What static mode finds in source text: the lexing error, else the
/// extraction error, else every defect of its subcommand-set declarations.
pub open spec fn source_findings(text: Seq<char>) -> Result<Seq<ViolationView>, SourceError> {
    match lexed(text) {
        Err(e) => Err(e),
        Ok(ts) => match decls_in(ts) {
            Err(e) => Err(e),
            Ok(ds) => Ok(declarations_findings(ds)),
        },
    }
}

/// Static mode: reads source text and checks the variant order of every
/// subcommand-set enum in it, collecting every defect. Unreadable text is an
/// error, reported instead of any violation.
pub fn validate_source(text: &str) -> (r: Result<Vec<Violation>, SourceError>)
    ensures
        match r {
            Ok(vs) => source_findings(text@) == Ok::<Seq<ViolationView>, SourceError>(
                violation_views(vs@),
            ),
            Err(e) => source_findings(text@) == Err::<Seq<ViolationView>, SourceError>(e),
        },
{
    let ts = match tokenize(text) {
        Ok(ts) => ts,
        Err(e) => {
            return Err(e);
        },
    };
    let ds = match find_declarations(&ts) {
        Ok(ds) => ds,
        Err(e) => {
            return Err(e);
        },
    };
    Ok(check_declarations(&ds))
}

} // verus!
