//! Grammar values.
//!
//! A grammar carries a pattern and optional anchor and stop tokens. Every consumer
//! takes its complete grammar from [`GrammarObj::to_gbnf`], so whether a pattern is
//! already a grammar is decided once.

use vstd::prelude::*;

use crate::gc::Heap;
use crate::heap::{ObjHeader, ObjKind};
use crate::obj::Obj;
#[allow(unused_imports)]
use crate::gc::{points_at, MAX_CELLS};
#[allow(unused_imports)]
use crate::obj::Cell;
#[allow(unused_imports)]
use crate::heap::spec_kind_byte;
use crate::text::{chars_of, find_char, str_contains};
#[allow(unused_imports)]
use crate::text::{contains_seq, ends_with_seq};

verus! {

/// A grammar: a pattern and optional anchor and stop tokens.
pub struct GrammarObj {
    /// The object header.
    pub header: ObjHeader,
    /// A complete grammar, or the right-hand side of its root rule.
    pub pattern: String,
    /// Output is muted from this token on.
    pub anchor: Option<String>,
    /// Output is muted up to this token.
    pub stop: Option<String>,
}

/// A bare pattern as a complete grammar. The trailing whitespace allowance leaves a
/// legal continuation once the value is complete.
pub open spec fn spec_wrap(pattern: Seq<char>) -> Seq<char> {
    "root ::= "@ + pattern + " [ \\t\\n\\r]*"@
}

/// The pattern already is a grammar: it has a `root` rule.
pub open spec fn is_complete(pattern: Seq<char>) -> bool {
    contains_seq(pattern, "root"@) && contains_seq(pattern, "::="@)
}

/// The complete grammar a pattern denotes.
pub open spec fn spec_gbnf(pattern: Seq<char>) -> Seq<char> {
    if is_complete(pattern) {
        pattern
    } else {
        spec_wrap(pattern)
    }
}

/// Wrap a bare pattern into a complete grammar.
pub fn wrap_pattern(pattern: &str) -> (s: String)
    ensures
        s@ == spec_wrap(pattern@),
{
    let mut s = "root ::= ".to_owned();
    s.append(pattern);
    s.append(" [ \\t\\n\\r]*");
    s
}

impl GrammarObj {
    /// A grammar value.
    pub fn new(pattern: String, anchor: Option<String>, stop: Option<String>) -> (g: Self)
        ensures
            g.pattern == pattern,
            g.anchor == anchor,
            g.stop == stop,
            g.header.fresh(ObjKind::Grammar),
            g.header.len == 0,
    {
        GrammarObj { header: ObjHeader::new(ObjKind::Grammar, 0), pattern, anchor, stop }
    }

    /// The complete grammar this value denotes: the pattern itself when it already
    /// is one, else the wrapped pattern.
    pub fn to_gbnf(&self) -> (s: String)
        ensures
            s@ == spec_gbnf(self.pattern@),
    {
        if str_contains(self.pattern.as_str(), "root") && str_contains(
            self.pattern.as_str(),
            "::=",
        ) {
            self.pattern.clone()
        } else {
            wrap_pattern(self.pattern.as_str())
        }
    }
}

/// The text of an optional string.
pub open spec fn opt_text(s: Option<String>) -> Option<Seq<char>> {
    match s {
        Some(t) => Some(t@),
        None => None,
    }
}

/// The text of an optional borrowed string.
pub open spec fn opt_str_text(s: Option<&str>) -> Option<Seq<char>> {
    match s {
        Some(t) => Some(t@),
        None => None,
    }
}

/// What a grammar contributes to a streaming request: its complete grammar, the
/// anchor and stop tokens, and whether output starts muted. It does exactly when
/// there is no anchor to wait for.
pub fn stream_args(g: &GrammarObj) -> (r: (String, Option<&str>, Option<&str>, bool))
    ensures
        r.0@ == spec_gbnf(g.pattern@),
        opt_str_text(r.1) == opt_text(g.anchor),
        opt_str_text(r.2) == opt_text(g.stop),
        r.3 == (g.anchor is None),
{
    let anchor: Option<&str> = match &g.anchor {
        Some(a) => Some(a.as_str()),
        None => None,
    };
    let stop: Option<&str> = match &g.stop {
        Some(a) => Some(a.as_str()),
        None => None,
    };
    (g.to_gbnf(), anchor, stop, g.anchor.is_none())
}

/// A text that can be handed to the model: one without a zero character.
pub open spec fn plain(s: Seq<char>) -> bool {
    !s.contains('\0')
}

/// The text when it can be handed on.
pub open spec fn plain_text(s: Option<Seq<char>>) -> Option<Seq<char>> {
    match s {
        Some(t) => if plain(t) {
            Some(t)
        } else {
            None
        },
        None => None,
    }
}

/// Whether a text can be handed on.
fn is_plain(s: &str) -> (r: bool)
    ensures
        r == plain(s@),
{
    let v = chars_of(s);
    match find_char(v.as_slice(), '\0') {
        Some(i) => {
            assert(v@[i as int] == '\0');
            false
        },
        None => true,
    }
}

/// A copy of the text when it can be handed on.
fn handed_on(s: &Option<String>) -> (r: Option<String>)
    ensures
        opt_text(r) == plain_text(opt_text(*s)),
{
    match s {
        Some(t) => if is_plain(t.as_str()) {
            Some(t.clone())
        } else {
            None
        },
        None => None,
    }
}

/// What a request is constrained by.
pub struct Constraint {
    /// The complete grammar, if any.
    pub gbnf: Option<String>,
    /// Output is muted from this token on.
    pub anchor: Option<String>,
    /// Output is muted up to this token.
    pub stop: Option<String>,
    /// Output starts muted.
    pub start_muted: bool,
}

/// The request carries what the grammar says; an anchor or stop token that cannot be
/// handed on is left out.
pub open spec fn constrains(g: GrammarObj, c: Constraint) -> bool {
    &&& opt_text(c.gbnf) == Some(spec_gbnf(g.pattern@))
    &&& opt_text(c.anchor) == plain_text(opt_text(g.anchor))
    &&& opt_text(c.stop) == plain_text(opt_text(g.stop))
    &&& c.start_muted == (g.anchor is None)
}

/// The constraint of a streaming request: none without a grammar, and no request at all
/// for a grammar that cannot be handed on.
pub fn jrt_prompt_stream_obj(g: Option<&GrammarObj>) -> (r: Option<Constraint>)
    ensures
        match g {
            None => r matches Some(c) && c.gbnf is None && c.anchor is None && c.stop is None
                && !c.start_muted,
            Some(x) => if plain(spec_gbnf(x.pattern@)) {
                r matches Some(c) && constrains(*x, c)
            } else {
                r is None
            },
        },
{
    match g {
        None => Some(Constraint { gbnf: None, anchor: None, stop: None, start_muted: false }),
        Some(x) => {
            let gbnf = x.to_gbnf();
            if !is_plain(gbnf.as_str()) {
                return None;
            }
            Some(
                Constraint {
                    gbnf: Some(gbnf),
                    anchor: handed_on(&x.anchor),
                    stop: handed_on(&x.stop),
                    start_muted: x.anchor.is_none(),
                },
            )
        },
    }
}

/// The constraint of a request that is not streamed; no request at all for a grammar
/// that cannot be handed on.
pub fn jrt_prompt_grammar_obj(g: &GrammarObj) -> (r: Option<Constraint>)
    ensures
        if plain(spec_gbnf(g.pattern@)) {
            r matches Some(c) && constrains(*g, c)
        } else {
            r is None
        },
{
    jrt_prompt_stream_obj(Some(g))
}

/// A new grammar. An absent pattern is empty.
pub fn jrt_grammar_new(
    h: &mut Heap,
    pattern: Option<String>,
    anchor: Option<String>,
    stop: Option<String>,
) -> (w: i64)
    requires
        old(h).wf(),
        old(h).cells@.len() < MAX_CELLS,
    ensures
        final(h).wf(),
        final(h).rc_on == old(h).rc_on,
        points_at(w) == old(h).cells@.len(),
        final(h).cells@.len() == old(h).cells@.len() + 1,
        final(h).cells@.drop_last() == old(h).cells@,
        final(h).cells@.last() matches Cell::Obj(Obj::Grammar(g)) && g.header.fresh(ObjKind::Grammar)
            && g.pattern@ == (match pattern {
            Some(p) => p@,
            None => seq![],
        }) && g.anchor == anchor && g.stop == stop,
{
    let p: String = match pattern {
        Some(p) => p,
        None => String::new(),
    };
    let w: i64 = h.leak_obj(Obj::Grammar(GrammarObj::new(p, anchor, stop)));
    assert(h.cells@.drop_last() =~= old(h).cells@);
    w
}

/// A wrapped pattern always allows trailing whitespace.
pub proof fn wrapping_allows_trailing_whitespace(pattern: Seq<char>)
    ensures
        ends_with_seq(spec_wrap(pattern), " [ \\t\\n\\r]*"@),
{
    let tail = " [ \\t\\n\\r]*"@;
    let w = spec_wrap(pattern);
    assert(w.subrange(w.len() - tail.len(), w.len() as int) =~= tail);
}

/// Wrapping makes a complete grammar: a wrapped pattern is used verbatim.
pub proof fn wrapping_once_is_enough(pattern: Seq<char>)
    ensures
        spec_gbnf(spec_wrap(pattern)) == spec_wrap(pattern),
{
    let w = spec_wrap(pattern);
    reveal_strlit("root ::= ");
    reveal_strlit("root");
    reveal_strlit("::=");
    assert(w.subrange(0, 4) =~= "root"@);
    assert(crate::text::occurs_at(w, "root"@, 0));
    assert(w.subrange(5, 8) =~= "::="@);
    assert(crate::text::occurs_at(w, "::="@, 5));
}

/// A pattern with a root rule is used as it is, and any other becomes the root rule.
pub proof fn patterns_become_the_root_rule(pattern: Seq<char>)
    ensures
        contains_seq(pattern, "root"@) && contains_seq(pattern, "::="@) ==> spec_gbnf(pattern)
            == pattern,
        !contains_seq(pattern, "root"@) || !contains_seq(pattern, "::="@) ==> spec_gbnf(pattern)
            == "root ::= "@ + pattern + " [ \\t\\n\\r]*"@,
{
}

/// A constraint has the grammar and, where they can be handed on, the anchor and the stop of
/// its source, each in its own place; output starts muted where there is no anchor.
pub proof fn constraints_keep_their_tokens(g: GrammarObj, c: Constraint)
    requires
        constrains(g, c),
    ensures
        c.gbnf matches Some(t) && t@ == spec_gbnf(g.pattern@),
        g.anchor matches Some(a) ==> (!a@.contains('\0') ==> (c.anchor matches Some(t) && t@ == a@))
            && (a@.contains('\0') ==> c.anchor is None),
        g.anchor is None ==> c.anchor is None,
        g.stop matches Some(a) ==> (!a@.contains('\0') ==> (c.stop matches Some(t) && t@ == a@))
            && (a@.contains('\0') ==> c.stop is None),
        g.stop is None ==> c.stop is None,
        c.start_muted <==> g.anchor is None,
{
}

} // verus!
