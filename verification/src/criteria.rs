//! Parsing textual criteria of the form `name[.resource][op][value]`
//! into an attribute collection.
//!
//! A criterion starts with a name of word characters (ASCII letters,
//! digits, underscore), optionally followed by a dot and a resource name
//! of word characters, optionally followed by one of the comparison
//! operators `=`, `!=`, `<`, `>`, `<=`, `>=`; everything after that is
//! the value.  A string that does not start with a word character is
//! skipped.  The parsed criteria fold into a collection with the usual
//! merge rules.

use vstd::prelude::*;

use crate::attribs::{add_leaf, Attribs};
use crate::attrl::{Attrl, AttrlModel, ResourceEntry};
use crate::op::{op_new_spec, Op, OpModel};
use crate::strutil::lemma_char_eq_u32;

verus! {

/// Whether `c` is a word character: an ASCII letter, digit, or
/// underscore.
pub open spec fn is_word_char(c: char) -> bool {
    (48 <= c as u32 <= 57) || (65 <= c as u32 <= 90) || (97 <= c as u32 <= 122) || c as u32 == 95
}

/// Length of the longest prefix of word characters.
pub open spec fn word_len(s: Seq<char>) -> int
    decreases s.len(),
{
    if s.len() == 0 {
        0
    } else if is_word_char(s[0]) {
        1 + word_len(s.drop_first())
    } else {
        0
    }
}

/// The operator text at the head of `r`, and what follows it.
pub open spec fn split_op(r: Seq<char>) -> (Option<Seq<char>>, Seq<char>) {
    if r.len() >= 2 && r[0] == '!' && r[1] == '=' {
        (Some(r.take(2)), r.skip(2))
    } else if r.len() >= 2 && r[0] == '>' && r[1] == '=' {
        (Some(r.take(2)), r.skip(2))
    } else if r.len() >= 2 && r[0] == '<' && r[1] == '=' {
        (Some(r.take(2)), r.skip(2))
    } else if r.len() >= 1 && r[0] == '=' {
        (Some(r.take(1)), r.skip(1))
    } else if r.len() >= 1 && r[0] == '<' {
        (Some(r.take(1)), r.skip(1))
    } else if r.len() >= 1 && r[0] == '>' {
        (Some(r.take(1)), r.skip(1))
    } else {
        (None, r)
    }
}

/// What one criterion string denotes: its name, its optional resource
/// name, and the operator value its operator text and value build.
pub open spec fn parse_criterion(s: Seq<char>) -> Option<
    (Seq<char>, Option<Seq<char>>, OpModel),
> {
    let n = word_len(s);
    if n == 0 {
        None
    } else {
        let name = s.take(n);
        let rest = s.skip(n);
        let with_res = rest.len() >= 2 && rest[0] == '.' && is_word_char(rest[1]);
        let resource = if with_res {
            Some(rest.skip(1).take(word_len(rest.skip(1))))
        } else {
            None
        };
        let rest2 = if with_res {
            rest.skip(1 + word_len(rest.skip(1)))
        } else {
            rest
        };
        let opv = split_op(rest2);
        Some((name, resource, op_new_spec(Some(opv.1), opv.0)))
    }
}

/// The collection entry a parsed criterion adds.
pub open spec fn criterion_leaf(c: (Seq<char>, Option<Seq<char>>, OpModel)) -> AttrlModel {
    match c.1 {
        None => AttrlModel::Value(c.2),
        Some(r) => AttrlModel::Resource(seq![(r, c.2)]),
    }
}

/// The collection a list of criterion strings folds to, on top of
/// `acc`; a string that parses to nothing is skipped.
pub open spec fn from_strings_spec(
    acc: Seq<(Seq<char>, AttrlModel)>,
    specs: Seq<Seq<char>>,
) -> Seq<(Seq<char>, AttrlModel)>
    decreases specs.len(),
{
    if specs.len() == 0 {
        acc
    } else {
        let acc2 = match parse_criterion(specs[0]) {
            None => acc,
            Some(c) => add_leaf(acc, c.0, criterion_leaf(c)),
        };
        from_strings_spec(acc2, specs.drop_first())
    }
}

/// Index just past the run of word characters starting at `from`.
fn word_end(s: &str, from: usize) -> (e: usize)
    requires
        from <= s@.len(),
    ensures
        from <= e <= s@.len(),
        e - from == word_len(s@.skip(from as int)),
{
    let len = s.unicode_len();
    let mut i: usize = from;
    while i < len
        invariant_except_break
            from <= i <= len,
            len == s@.len(),
            word_len(s@.skip(from as int)) == i - from + word_len(s@.skip(i as int)),
        ensures
            from <= i <= len,
            len == s@.len(),
            word_len(s@.skip(from as int)) == i - from + word_len(s@.skip(i as int)),
            i == len || word_len(s@.skip(i as int)) == 0,
        decreases len - i,
    {
        let u = s.get_char(i) as u32;
        if !((48 <= u && u <= 57) || (65 <= u && u <= 90) || (97 <= u && u <= 122) || u == 95) {
            proof {
                assert(s@.skip(i as int)[0] == s@[i as int]);
                assert(!is_word_char(s@.skip(i as int)[0]));
            }
            break ;
        }
        proof {
            assert(s@.skip(i as int)[0] == s@[i as int]);
            assert(is_word_char(s@.skip(i as int)[0]));
            assert(s@.skip(i as int).drop_first() =~= s@.skip(i as int + 1));
        }
        i = i + 1;
    }
    proof {
        if i == len {
            assert(s@.skip(len as int) =~= Seq::<char>::empty());
        }
    }
    i
}

/// Parses one criterion string; yields nothing when the string does not
/// start with a word character.
#[verifier::rlimit(60)]
pub fn parse_criterion_str(s: &str) -> (r: Option<(String, Option<String>, Op)>)
    ensures
        match r {
            Some(t) => parse_criterion(s@) == Some(
                (
                    t.0@,
                    match t.1 {
                        Some(x) => Some(x@),
                        None => None::<Seq<char>>,
                    },
                    t.2@,
                ),
            ),
            None => parse_criterion(s@) is None,
        },
{
    proof {
        reveal_strlit("=");
        reveal_strlit("!=");
        reveal_strlit("<");
        reveal_strlit(">");
        reveal_strlit("<=");
        reveal_strlit(">=");
    }
    let len = s.unicode_len();
    let n = word_end(s, 0);
    proof {
        assert(s@.skip(0) =~= s@);
    }
    if n == 0 {
        return None;
    }
    let name = s.substring_char(0, n).to_owned();
    proof {
        assert(name@ =~= s@.take(word_len(s@)));
    }
    let ghost rest = s@.skip(n as int);
    let mut with_res = false;
    if len - n >= 2 {
        let dot = s.get_char(n);
        let nxt = s.get_char(n + 1) as u32;
        proof {
            lemma_char_eq_u32(dot, '.');
            assert(rest[0] == s@[n as int]);
            assert(rest[1] == s@[n as int + 1]);
        }
        if (dot as u32) == 46 && ((48 <= nxt && nxt <= 57) || (65 <= nxt && nxt <= 90) || (97
            <= nxt && nxt <= 122) || nxt == 95) {
            with_res = true;
        }
    }
    proof {
        if rest.len() >= 2 {
            lemma_char_eq_u32(rest[0], '.');
        }
        assert(with_res == (rest.len() >= 2 && rest[0] == '.' && is_word_char(rest[1])));
    }
    let (resource, p): (Option<String>, usize) = if with_res {
        let re = word_end(s, n + 1);
        proof {
            assert(rest.skip(1) =~= s@.skip(n as int + 1));
            assert(rest.skip(1).take(word_len(rest.skip(1))) =~= s@.subrange(
                n as int + 1,
                re as int,
            ));
            assert(rest.skip(1 + word_len(rest.skip(1))) =~= s@.skip(re as int));
        }
        (Some(s.substring_char(n + 1, re).to_owned()), re)
    } else {
        (None, n)
    };
    let ghost rest2 = s@.skip(p as int);
    proof {
        if !with_res {
            assert(rest2 =~= rest);
        }
    }
    let c1: u32 = if p < len {
        s.get_char(p) as u32
    } else {
        0
    };
    let c2: u32 = if len - p >= 2 {
        s.get_char(p + 1) as u32
    } else {
        0
    };
    proof {
        if p < len {
            assert(rest2[0] == s@[p as int]);
            lemma_char_eq_u32(s@[p as int], '!');
            lemma_char_eq_u32(s@[p as int], '>');
            lemma_char_eq_u32(s@[p as int], '<');
            lemma_char_eq_u32(s@[p as int], '=');
        }
        if len - p >= 2 {
            assert(rest2[1] == s@[p as int + 1]);
            lemma_char_eq_u32(s@[p as int + 1], '=');
        }
    }
    let two = len - p >= 2 && c2 == 61;
    let op: Op = if two && c1 == 33 {
        proof {
            assert(rest2.skip(2) =~= s@.skip(p as int + 2));
            assert(rest2.take(2) =~= "!="@);
        }
        let v = s.substring_char(p + 2, len).to_owned();
        Op::new(Some(v), Some("!="))
    } else if two && c1 == 62 {
        proof {
            assert(rest2.skip(2) =~= s@.skip(p as int + 2));
            assert(rest2.take(2) =~= ">="@);
        }
        let v = s.substring_char(p + 2, len).to_owned();
        Op::new(Some(v), Some(">="))
    } else if two && c1 == 60 {
        proof {
            assert(rest2.skip(2) =~= s@.skip(p as int + 2));
            assert(rest2.take(2) =~= "<="@);
        }
        let v = s.substring_char(p + 2, len).to_owned();
        Op::new(Some(v), Some("<="))
    } else if p < len && c1 == 61 {
        proof {
            assert(rest2.skip(1) =~= s@.skip(p as int + 1));
            assert(rest2.take(1) =~= "="@);
        }
        let v = s.substring_char(p + 1, len).to_owned();
        Op::new(Some(v), Some("="))
    } else if p < len && c1 == 60 {
        proof {
            assert(rest2.skip(1) =~= s@.skip(p as int + 1));
            assert(rest2.take(1) =~= "<"@);
        }
        let v = s.substring_char(p + 1, len).to_owned();
        Op::new(Some(v), Some("<"))
    } else if p < len && c1 == 62 {
        proof {
            assert(rest2.skip(1) =~= s@.skip(p as int + 1));
            assert(rest2.take(1) =~= ">"@);
        }
        let v = s.substring_char(p + 1, len).to_owned();
        Op::new(Some(v), Some(">"))
    } else {
        proof {
            assert(rest2 =~= s@.skip(p as int));
            assert(split_op(rest2).0 is None);
        }
        let v = s.substring_char(p, len).to_owned();
        Op::new(Some(v), None)
    };
    Some((name, resource, op))
}

impl Attribs {
    /// Folds a list of criterion strings into a collection.
    pub fn from_strings(specs: &Vec<String>) -> (r: Attribs)
        ensures
            r.wf(),
            r@ == from_strings_spec(
                Seq::empty(),
                specs@.map_values(|s: String| s@),
            ),
    {
        let views = Ghost(specs@.map_values(|s: String| s@));
        let mut a = Attribs::new();
        let m = specs.len();
        let mut i: usize = 0;
        proof {
            assert(views@.skip(0) =~= views@);
        }
        while i < m
            invariant
                0 <= i <= m,
                m == specs@.len(),
                views@ == specs@.map_values(|s: String| s@),
                a.wf(),
                from_strings_spec(Seq::empty(), views@) == from_strings_spec(
                    a@,
                    views@.skip(i as int),
                ),
            decreases m - i,
        {
            proof {
                assert(views@.skip(i as int)[0] == specs@[i as int]@);
                assert(views@.skip(i as int).drop_first() =~= views@.skip(i as int + 1));
            }
            match parse_criterion_str(specs[i].as_str()) {
                None => {},
                Some((name, resource, op)) => {
                    let leaf: Attrl = match resource {
                        None => Attrl::Value(op),
                        Some(rn) => {
                            let entry = ResourceEntry { name: rn, op };
                            Attrl::Resource(vec![entry])
                        },
                    };
                    proof {
                        assert(crate::attrl::wf_leaf(leaf@)) by {
                            match leaf@ {
                                AttrlModel::Resource(mm) => {
                                    assert(crate::assoc::sorted_keys(mm));
                                },
                                _ => {},
                            }
                        }
                        assert(leaf@ == criterion_leaf(
                            parse_criterion(specs@[i as int]@)->Some_0,
                        )) by {
                            match leaf {
                                Attrl::Resource(v) => {
                                    assert(crate::attrl::res_view(v@) =~= seq![
                                        (
                                            parse_criterion(specs@[i as int]@)->Some_0.1->Some_0,
                                            parse_criterion(specs@[i as int]@)->Some_0.2,
                                        ),
                                    ]);
                                },
                                _ => {},
                            }
                        }
                    }
                    a.add(name, leaf);
                },
            }
            i = i + 1;
        }
        proof {
            assert(views@.skip(m as int) =~= Seq::<Seq<char>>::empty());
        }
        a
    }
}

} // verus!
