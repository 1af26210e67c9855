//! Source-text generation for the named group types: one zero-sized type per
//! group name, derived by converting the model's `snake_case` labels to
//! `PascalCase`, plus the position-lookup implementations.

use vstd::prelude::*;

verus! {

use vstd::string::{StrSliceExecFns, StringExecFns, StringSliceAdditionalSpecFns};
use vstd::utf8::is_ascii_chars;

/// The character with a lower-case ASCII letter raised to upper case.
pub open spec fn upper_char(c: char) -> char {
    if 'a' <= c && c <= 'z' {
        ((c as u8) - 32) as char
    } else {
        c
    }
}

/// The `PascalCase` form of a `snake_case` name: underscores split the name
/// into parts, and each part starts with an upper-cased character.  `start`
/// says whether the next character begins a part.
pub open spec fn pascal(s: Seq<char>, start: bool) -> Seq<char>
    decreases s.len(),
{
    if s.len() == 0 {
        Seq::empty()
    } else if s[0] == '_' {
        pascal(s.skip(1), true)
    } else {
        seq![
            if start {
                upper_char(s[0])
            } else {
                s[0]
            },
        ] + pascal(s.skip(1), false)
    }
}

/// Relies on alloc's `String::from_utf8`: bytes below 128 are one-byte UTF-8
/// code points, so the string's characters are exactly the bytes.
#[verifier::external_body]
fn string_from_ascii(bytes: Vec<u8>) -> (r: String)
    requires
        forall|i: int| 0 <= i < bytes@.len() ==> bytes@[i] < 128,
    ensures
        r@ == bytes@.map_values(|b: u8| b as char),
{
    String::from_utf8(bytes).unwrap_or_default()
}

/// A group name as the model declares it, in `snake_case`.
#[derive(Debug, Default)]
pub struct Name(pub String);

impl Name {
    /// The name's `PascalCase` form, used as the generated type's name.
    pub fn variant(&self) -> (r: String)
        requires
            is_ascii_chars(self.0@),
        ensures
            r@ == pascal(self.0@, true),
    {
        let s = &self.0;
        let a = s.as_str();
        proof {
            vstd::string::is_ascii_spec_bytes(a);
            assert(vstd::string::is_ascii(a));
            assert(a.spec_bytes() =~= Seq::new(s@.len(), |i: int| s@[i] as u8));
        }
        let n = a.unicode_len();
        let mut out: Vec<u8> = Vec::new();
        let mut i: usize = 0;
        let mut at_start: bool = true;
        proof {
            assert(s@.skip(0) =~= s@);
            assert(out@.map_values(|b: u8| b as char) =~= Seq::<char>::empty());
        }
        while i < n
            invariant
                n == s@.len(),
                is_ascii_chars(s@),
                a@ == s@,
                a.spec_bytes().len() == s@.len(),
                forall|q: int|
                    0 <= q < s@.len() ==> #[trigger] a.spec_bytes()[q] == s@[q] as u8,
                0 <= i <= n,
                forall|q: int| 0 <= q < out@.len() ==> (#[trigger] out@[q]) < 128,
                out@.map_values(|b: u8| b as char) + pascal(s@.skip(i as int), at_start) == pascal(
                    s@,
                    true,
                ),
            decreases n - i,
        {
            proof {
                assert(s@.skip(i as int)[0] == s@[i as int]);
                assert(s@.skip(i as int).skip(1) =~= s@.skip(i as int + 1));
            }
            let b = a.as_bytes()[i];
            if b == 95u8 {
                proof {
                    assert(s@[i as int] == '_');
                }
                at_start = true;
            } else {
                proof {
                    assert(s@[i as int] != '_');
                }
                let ghost pre = out@;
                let c: u8 = if at_start && b >= 97u8 && b <= 122u8 {
                    b - 32u8
                } else {
                    b
                };
                out.push(c);
                proof {
                    let mapped = if at_start {
                        upper_char(s@[i as int])
                    } else {
                        s@[i as int]
                    };
                    assert(c as char == mapped);
                    assert(out@.map_values(|bb: u8| bb as char) =~= pre.map_values(
                        |bb: u8| bb as char,
                    ) + seq![mapped]);
                }
                at_start = false;
            }
            i = i + 1;
        }
        proof {
            assert(s@.skip(n as int) =~= Seq::<char>::empty());
        }
        string_from_ascii(out)
    }

    /// The generated enum declaration for the name's variant type.
    pub fn enum_variant(&self) -> (r: String)
        requires
            is_ascii_chars(self.0@),
        ensures
            r@ == "\n        #[derive(Debug, ::gmt_dos_clients::interface::UID)]\n        pub enum "@
                + pascal(self.0@, true) + " {}\n        "@,
    {
        let v = self.variant();
        let mut out = String::from_str(
            "\n        #[derive(Debug, ::gmt_dos_clients::interface::UID)]\n        pub enum ",
        );
        out.append(v.as_str());
        out.append(" {}\n        ");
        out
    }

    /// The generated position-lookup implementation tying the variant type
    /// to its slot in the model's input or output vector; `io` is `Inputs`
    /// or `Outputs`.
    pub fn impl_enum_variant_for_io(&self, io: &str) -> (r: String)
        requires
            is_ascii_chars(self.0@),
        ensures
            r@ == "\n        impl FemIo<"@ + pascal(self.0@, true) + "> for Vec<Option<"@ + io@
                + ">> {\n            fn position(&self) -> Option<usize>{\n                self.iter().filter_map(|x| x.as_ref())\n                        .position(|x| if let "@
                + io@ + "::"@ + pascal(self.0@, true)
                + "(_) = x {true} else {false})\n            }\n        }\n        "@,
    {
        let v = self.variant();
        let mut out = String::from_str("\n        impl FemIo<");
        out.append(v.as_str());
        out.append("> for Vec<Option<");
        out.append(io);
        out.append(
            ">> {\n            fn position(&self) -> Option<usize>{\n                self.iter().filter_map(|x| x.as_ref())\n                        .position(|x| if let ",
        );
        out.append(io);
        out.append("::");
        out.append(v.as_str());
        out.append("(_) = x {true} else {false})\n            }\n        }\n        ");
        proof {
            assert(out@ =~= "\n        impl FemIo<"@ + pascal(self.0@, true) + "> for Vec<Option<"@
                + io@ + ">> {\n            fn position(&self) -> Option<usize>{\n                self.iter().filter_map(|x| x.as_ref())\n                        .position(|x| if let "@
                + io@ + "::"@ + pascal(self.0@, true)
                + "(_) = x {true} else {false})\n            }\n        }\n        "@);
        }
        out
    }
}

/// The group names of one side of the model.
#[derive(Debug, Default)]
pub struct Names(pub Vec<Name>);

impl Names {
    /// How many names are held.
    pub fn len(&self) -> (r: usize)
        ensures
            r == self.0@.len(),
    {
        self.0.len()
    }
}

/// The body shapes of a generated accessor: the same text for every arm, one
/// text per arm, or one text per arm with the payload ignored.
#[derive(Debug)]
pub enum MatchArms {
    Same(String),
    Unique(Vec<String>),
    IgnoreUnique(Vec<String>),
}

/// A generated accessor function over the group enum: its visibility, name,
/// receiver, optional argument list, return type and `where` clause, and one
/// match arm per group variant.
#[derive(Debug)]
pub struct Function<'a> {
    pub vis: String,
    pub name: String,
    pub object: String,
    pub args: Option<String>,
    pub fn_return: Option<String>,
    pub fn_where: Option<String>,
    pub arms: MatchArms,
    pub io: String,
    pub variants: &'a Names,
}

impl<'a> Function<'a> {
    /// A function with no argument list, return type or `where` clause yet.
    pub fn new(
        vis: String,
        name: String,
        object: String,
        arms: MatchArms,
        io: String,
        variants: &'a Names,
    ) -> (r: Function<'a>)
        ensures
            r.vis == vis,
            r.name == name,
            r.object == object,
            r.arms == arms,
            r.io == io,
            r.variants == variants,
            r.args is None,
            r.fn_return is None,
            r.fn_where is None,
    {
        Function { vis, name, object, args: None, fn_return: None, fn_where: None, arms, io, variants }
    }

    /// Sets the return type.
    pub fn fn_return(self, fn_return: &str) -> (r: Function<'a>)
        ensures
            r.fn_return matches Some(s) && s@ == fn_return@,
            r.vis == self.vis,
            r.name == self.name,
            r.object == self.object,
            r.args == self.args,
            r.fn_where == self.fn_where,
            r.arms == self.arms,
            r.io == self.io,
            r.variants == self.variants,
    {
        Function { fn_return: Some(fn_return.to_owned()), ..self }
    }

    /// Sets the `where` clause.
    pub fn fn_where(self, fn_where: &str) -> (r: Function<'a>)
        ensures
            r.fn_where matches Some(s) && s@ == fn_where@,
            r.vis == self.vis,
            r.name == self.name,
            r.object == self.object,
            r.args == self.args,
            r.fn_return == self.fn_return,
            r.arms == self.arms,
            r.io == self.io,
            r.variants == self.variants,
    {
        Function { fn_where: Some(fn_where.to_owned()), ..self }
    }

    /// Sets the argument list.
    pub fn args(self, args: &str) -> (r: Function<'a>)
        ensures
            r.args matches Some(s) && s@ == args@,
            r.vis == self.vis,
            r.name == self.name,
            r.object == self.object,
            r.fn_return == self.fn_return,
            r.fn_where == self.fn_where,
            r.arms == self.arms,
            r.io == self.io,
            r.variants == self.variants,
    {
        Function { args: Some(args.to_owned()), ..self }
    }
}

} // verus!
