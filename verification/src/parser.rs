//! Template substitution: the named color bindings derived from a palette,
//! and the scanner that replaces `{name}` tokens (names over letters,
//! digits, `.` and `_`) with their bound values, leaving unknown or
//! malformed tokens as they stand.

use vstd::prelude::*;
use vstd::string::*;
use crate::color::{Color, spec_hex, spec_hex_stripped};
use crate::fmt_text::{spec_dec, dec_u32};

verus! {

/// The (name, value) pairs as character sequences.
pub open spec fn vars_view(v: Seq<(String, String)>) -> Seq<(Seq<char>, Seq<char>)> {
    v.map_values(|p: (String, String)| (p.0@, p.1@))
}

/// The two bindings of one palette slot: `color<i>` and `color<i>.strip`.
pub open spec fn color_var_pair(colors: Seq<Color>, i: int) -> Seq<(Seq<char>, Seq<char>)> {
    seq![
        ("color"@ + spec_dec(i), spec_hex(colors[i])),
        ("color"@ + spec_dec(i) + ".strip"@, spec_hex_stripped(colors[i])),
    ]
}

/// The slot bindings of the first `n` palette slots, in slot order.
pub open spec fn color_vars(colors: Seq<Color>, n: int) -> Seq<(Seq<char>, Seq<char>)>
    decreases n,
{
    if n <= 0 {
        Seq::empty()
    } else {
        color_vars(colors, n - 1) + color_var_pair(colors, n - 1)
    }
}

/// All bindings of a palette: the first 16 slots, then background,
/// foreground and cursor, each with a `.strip` variant. Foreground and
/// cursor alias slot 15, falling back to slot 7 when there is no slot 15.
pub open spec fn spec_variables(colors: Seq<Color>) -> Seq<(Seq<char>, Seq<char>)> {
    let n = if colors.len() >= 16 {
        16int
    } else {
        colors.len() as int
    };
    let fg = if colors.len() > 15 {
        colors[15]
    } else {
        colors[7]
    };
    color_vars(colors, n) + seq![
        ("background"@, spec_hex(colors[0])),
        ("background.strip"@, spec_hex_stripped(colors[0])),
        ("foreground"@, spec_hex(fg)),
        ("foreground.strip"@, spec_hex_stripped(fg)),
        ("cursor"@, spec_hex(fg)),
        ("cursor.strip"@, spec_hex_stripped(fg)),
    ]
}

/// A character a token name may hold: ASCII letters, digits, `.` and `_`.
pub open spec fn is_name_char(c: char) -> bool {
    ||| ('a' as u32) <= (c as u32) && (c as u32) <= ('z' as u32)
    ||| ('A' as u32) <= (c as u32) && (c as u32) <= ('Z' as u32)
    ||| ('0' as u32) <= (c as u32) && (c as u32) <= ('9' as u32)
    ||| c == '.'
    ||| c == '_'
}

/// The length of the leading run of name characters.
pub open spec fn run_len(t: Seq<char>) -> nat
    decreases t.len(),
{
    if t.len() > 0 && is_name_char(t[0]) {
        1 + run_len(t.drop_first())
    } else {
        0
    }
}

/// The run length is exactly the first position that is out of range or
/// not a name character.
pub proof fn lemma_run_len_exact(t: Seq<char>, j: int)
    requires
        0 <= j <= t.len(),
        forall|m: int| 0 <= m < j ==> is_name_char(#[trigger] t[m]),
        j == t.len() || !is_name_char(t[j]),
    ensures
        run_len(t) == j,
    decreases t.len(),
{
    if j == 0 {
    } else {
        assert(is_name_char(t[0]));
        lemma_run_len_exact(t.drop_first(), j - 1);
    }
}

/// The value bound to a name, or the fallback when no binding matches;
/// the first binding wins.
pub open spec fn lookup(
    vars: Seq<(Seq<char>, Seq<char>)>,
    name: Seq<char>,
    dflt: Seq<char>,
) -> Seq<char>
    decreases vars.len(),
{
    if vars.len() == 0 {
        dflt
    } else if vars.first().0 == name {
        vars.first().1
    } else {
        lookup(vars.drop_first(), name, dflt)
    }
}

/// Token substitution over a character sequence: at each `{`, the longest
/// run of name characters directly after it, closed by `}`, is a token;
/// a token is replaced by its bound value, or left as written when no
/// binding matches. Everything else is copied through.
pub open spec fn spec_substitute(t: Seq<char>, vars: Seq<(Seq<char>, Seq<char>)>) -> Seq<char>
    decreases t.len(),
{
    if t.len() == 0 {
        Seq::empty()
    } else if t[0] == '{' {
        let k = run_len(t.drop_first()) as int;
        if k >= 1 && k + 1 < t.len() && t[k + 1] == '}' {
            lookup(vars, t.subrange(1, k + 1), t.subrange(0, k + 2)) + spec_substitute(
                t.skip(k + 2),
                vars,
            )
        } else {
            seq!['{'] + spec_substitute(t.drop_first(), vars)
        }
    } else {
        seq![t[0]] + spec_substitute(t.drop_first(), vars)
    }
}

/// Fills templates from a palette's named bindings.
pub struct TemplateParser {
    pub colors: Vec<Color>,
    pub variables: Vec<(String, String)>,
}

impl TemplateParser {
    /// Builds the parser and its bindings. The palette must reach at least
    /// slot 7, which foreground and cursor fall back to.
    pub fn new(colors: Vec<Color>) -> (p: Self)
        requires
            colors@.len() >= 8,
        ensures
            p.colors@ == colors@,
            vars_view(p.variables@) == spec_variables(colors@),
    {
        let mut parser = TemplateParser { colors, variables: Vec::new() };

        parser.initialize_variables();

        parser
    }

    /// (Re)derives every binding from the stored palette.
    pub fn initialize_variables(&mut self)
        requires
            old(self).colors@.len() >= 8,
        ensures
            final(self).colors@ == old(self).colors@,
            vars_view(final(self).variables@) == spec_variables(old(self).colors@),
    {
        let ghost cs = self.colors@;
        let mut variables: Vec<(String, String)> = Vec::new();
        let n: usize = if self.colors.len() >= 16 {
            16
        } else {
            self.colors.len()
        };
        let mut i: usize = 0;
        proof {
            assert(vars_view(variables@) =~= color_vars(cs, 0));
        }
        while i < n
            invariant
                0 <= i <= n,
                cs == self.colors@,
                cs.len() >= 8,
                n == if cs.len() >= 16 {
                    16int
                } else {
                    cs.len() as int
                },
                vars_view(variables@) == color_vars(cs, i as int),
            decreases n - i,
        {
            let mut name = String::from_str("color");
            name.append(dec_u32(i as u32).as_str());
            let mut strip_name = name.clone();
            strip_name.append(".strip");
            variables.push((name, self.colors[i].to_hex()));
            variables.push((strip_name, self.colors[i].to_hex_stripped()));
            proof {
                assert(vars_view(variables@) =~= color_vars(cs, i as int) + color_var_pair(
                    cs,
                    i as int,
                ));
            }
            i = i + 1;
        }
        let background = self.colors[0];
        let foreground = if self.colors.len() > 15 {
            self.colors[15]
        } else {
            self.colors[7]
        };
        let mut key = String::from_str("background");
        variables.push((key, background.to_hex()));
        key = String::from_str("background.strip");
        variables.push((key, background.to_hex_stripped()));
        key = String::from_str("foreground");
        variables.push((key, foreground.to_hex()));
        key = String::from_str("foreground.strip");
        variables.push((key, foreground.to_hex_stripped()));
        key = String::from_str("cursor");
        variables.push((key, foreground.to_hex()));
        key = String::from_str("cursor.strip");
        variables.push((key, foreground.to_hex_stripped()));
        self.variables = variables;
        proof {
            assert(vars_view(self.variables@) =~= spec_variables(cs));
        }
    }

    /// The first binding for a name, if any.
    fn lookup_variable(&self, name: &String) -> (r: Option<String>)
        ensures
            r is Some ==> forall|d: Seq<char>| #[trigger] lookup(
                vars_view(self.variables@),
                name@,
                d,
            ) == (r->0)@,
            r is None ==> forall|d: Seq<char>| #[trigger] lookup(
                vars_view(self.variables@),
                name@,
                d,
            ) == d,
    {
        let ghost vv = vars_view(self.variables@);
        let mut m: usize = 0;
        proof {
            assert(vv.skip(0) =~= vv);
        }
        while m < self.variables.len()
            invariant
                0 <= m <= vv.len(),
                vv == vars_view(self.variables@),
                forall|d: Seq<char>| #[trigger] lookup(vv, name@, d) == lookup(
                    vv.skip(m as int),
                    name@,
                    d,
                ),
            decreases vv.len() - m,
        {
            proof {
                assert(vv.skip(m as int).first() == vv[m as int]);
                assert(vv.skip(m as int).drop_first() =~= vv.skip(m as int + 1));
            }
            if self.variables[m].0.eq(name) {
                return Some(self.variables[m].1.clone());
            }
            m = m + 1;
        }
        proof {
            assert(vv.skip(vv.len() as int) =~= Seq::<(Seq<char>, Seq<char>)>::empty());
        }
        None
    }

    /// Replaces every `{name}` token that has a binding; unknown tokens and
    /// stray braces are copied through unchanged.
    pub fn parse_template(&self, template_content: &str) -> (r: String)
        ensures
            r@ == spec_substitute(template_content@, vars_view(self.variables@)),
    {
        let ghost vv = vars_view(self.variables@);
        let t = template_content;
        let n = t.unicode_len();
        let mut result = String::new();
        let mut pos: usize = 0;
        proof {
            assert(t@.skip(0) =~= t@);
        }
        while pos < n
            invariant
                n == t@.len(),
                0 <= pos <= n,
                vv == vars_view(self.variables@),
                spec_substitute(t@, vv) == result@ + spec_substitute(t@.skip(pos as int), vv),
            decreases n - pos,
        {
            let ghost rest = t@.skip(pos as int);
            let c = t.get_char(pos);
            if c == '{' {
                let mut q = pos + 1;
                while q < n && exec_is_name_char(t.get_char(q))
                    invariant
                        n == t@.len(),
                        pos + 1 <= q <= n,
                        forall|m: int| pos + 1 <= m < q ==> is_name_char(#[trigger] t@[m]),
                    decreases n - q,
                {
                    q = q + 1;
                }
                proof {
                    let tail = t@.skip(pos as int + 1);
                    assert forall|m: int| 0 <= m < q - pos - 1 implies is_name_char(
                        #[trigger] tail[m],
                    ) by {
                        assert(tail[m] == t@[m + pos + 1]);
                    }
                    if (q as int) < n {
                        assert(tail[q - pos - 1] == t@[q as int]);
                    }
                    lemma_run_len_exact(tail, q - pos - 1);
                    assert(rest.drop_first() =~= tail);
                    assert(run_len(rest.drop_first()) == q - pos - 1);
                }
                let k = q - pos - 1;
                if k >= 1 && q < n && t.get_char(q) == '}' {
                    let name = String::from_str(t.substring_char(pos + 1, q));
                    let replacement = match self.lookup_variable(&name) {
                        Some(v) => v,
                        None => String::from_str(t.substring_char(pos, q + 1)),
                    };
                    result.append(replacement.as_str());
                    proof {
                        assert(rest.subrange(1, k as int + 1) =~= t@.subrange(
                            pos as int + 1,
                            q as int,
                        ));
                        assert(rest.subrange(0, k as int + 2) =~= t@.subrange(
                            pos as int,
                            q as int + 1,
                        ));
                        assert(rest.skip(k as int + 2) =~= t@.skip(q as int + 1));
                        assert(rest[k as int + 1] == t@[q as int]);
                    }
                    pos = q + 1;
                } else {
                    result.append("{");
                    proof {
                        assert(rest.drop_first() =~= t@.skip(pos as int + 1));
                        assert(seq!['{'][0] == '{');
                        assert("{"@ =~= seq!['{']) by {
                            reveal_strlit("{");
                        }
                    }
                    pos = pos + 1;
                }
            } else {
                result.append(t.substring_char(pos, pos + 1));
                proof {
                    assert(rest.drop_first() =~= t@.skip(pos as int + 1));
                    assert(t@.subrange(pos as int, pos as int + 1) =~= seq![t@[pos as int]]);
                }
                pos = pos + 1;
            }
        }
        proof {
            assert(t@.skip(n as int) =~= Seq::<char>::empty());
        }
        result
    }
}

/// Whether a character may stand in a token name.
fn exec_is_name_char(c: char) -> (r: bool)
    ensures
        r == is_name_char(c),
{
    let u = c as u32;
    (u >= 97 && u <= 122) || (u >= 65 && u <= 90) || (u >= 48 && u <= 57) || c == '.' || c == '_'
}

} // verus!
