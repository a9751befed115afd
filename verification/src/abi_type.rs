//! The ABI type model: a closed sum type for the type grammar, its canonical
//! string form, the string parser and serializer, and the tuple-content
//! splitter shared by the type parser and the method-signature parser.
use crate::error::AbiError;
use crate::grammar::balanced;
use crate::grammar::dec_rep;
use crate::grammar::dec_val;
use crate::grammar::digit_char;
use crate::grammar::digit_val;
use crate::grammar::is_canonical_dec;
use crate::grammar::is_digit_char;
use crate::grammar::has_double_comma;
use crate::grammar::is_segments;
use crate::grammar::join_commas;
use crate::grammar::lemma_canonical_dec_rep;
use crate::grammar::lemma_dec_rep_canonical;
use crate::grammar::lemma_dec_val_take_mono;
use crate::grammar::lemma_join_balanced;
use crate::grammar::lemma_join_no_double_comma;
use crate::grammar::lemma_pdepth_single;
use crate::grammar::lemma_pdepth_concat;
use crate::grammar::lemma_pdepth_no_paren;
use crate::grammar::lemma_no_paren_comma_segment;
use crate::grammar::lemma_segments_commas;
use crate::grammar::lemma_segments_unique;
use crate::grammar::no_top_comma;
use crate::grammar::pdepth;
use crate::grammar::valid_segment;
use vstd::prelude::*;

verus! {

/// Numeric tag of an ABI type, as the wire encoding orders them.
#[derive(Debug, Clone, Copy, PartialEq, Eq, Structural)]
pub struct BaseType(pub u32);

/// Index for the `uint<N>` type.
pub const UINT: u32 = 0;

/// Index for the `byte` type.
pub const BYTE: u32 = 1;

/// Index for the `ufixed<N>x<M>` type.
pub const UFIXED: u32 = 2;

/// Index for the `bool` type.
pub const BOOL: u32 = 3;

/// Index for the static-length array type `<type>[<len>]`.
pub const ARRAY_STATIC: u32 = 4;

/// Index for the `address` type (an alias of a 32-element byte array).
pub const ADDRESS: u32 = 5;

/// Index for the dynamic-length array type `<type>[]`.
pub const ARRAY_DYNAMIC: u32 = 6;

/// Index for the `string` type (an alias of a variable-length byte array).
pub const STRING: u32 = 7;

/// Index for the tuple type `(<type 0>,...,<type k>)`.
pub const TUPLE: u32 = 8;

/// An ABI value's type. Each variant carries exactly the parameters that its
/// grammar production has, so a tag/field mismatch cannot be expressed.
#[derive(Debug)]
pub enum AbiType {
    /// `uint<N>` with `N` ∈ [8, 512], a multiple of 8.
    Uint { bit_size: u16 },
    /// `byte`: one unsigned 8-bit unit.
    Byte,
    /// `ufixed<N>x<M>` with `N` as for `Uint` and `M` ∈ [1, 160].
    UFixed { bit_size: u16, precision: u16 },
    /// `bool`.
    Bool,
    /// `<elem>[<len>]` with `len` ∈ [0, 65535].
    ArrayStatic { elem: Box<AbiType>, len: u16 },
    /// `address`.
    Address,
    /// `<elem>[]`.
    ArrayDynamic { elem: Box<AbiType> },
    /// `string`.
    Str,
    /// `(<elem 0>,...,<elem k>)` with at most 65534 elements.
    Tuple { children: Vec<AbiType> },
}

impl AbiType {
    /// The range invariants of the grammar: bit sizes in [8, 512] and
    /// divisible by 8, precision in [1, 160], tuple arity below 65535.
    pub open spec fn wf(self) -> bool
        decreases self,
    {
        match self {
            AbiType::Uint { bit_size } => valid_bit_size(bit_size as int),
            AbiType::Byte => true,
            AbiType::UFixed { bit_size, precision } => valid_bit_size(bit_size as int)
                && 1 <= precision <= 160,
            AbiType::Bool => true,
            AbiType::ArrayStatic { elem, len } => (*elem).wf(),
            AbiType::Address => true,
            AbiType::ArrayDynamic { elem } => (*elem).wf(),
            AbiType::Str => true,
            AbiType::Tuple { children } => children.len() <= 65534 && forall|i: int|
                0 <= i < children.len() ==> (#[trigger] children[i]).wf(),
        }
    }

    /// The canonical string of this type, as a character sequence.
    pub open spec fn spec_format(self) -> Seq<char>
        decreases self, 1int,
    {
        match self {
            AbiType::Uint { bit_size } => seq!['u', 'i', 'n', 't'] + dec_rep(bit_size as nat),
            AbiType::Byte => seq!['b', 'y', 't', 'e'],
            AbiType::UFixed { bit_size, precision } => seq!['u', 'f', 'i', 'x', 'e', 'd'] + dec_rep(
                bit_size as nat,
            ) + seq!['x'] + dec_rep(precision as nat),
            AbiType::Bool => seq!['b', 'o', 'o', 'l'],
            AbiType::ArrayStatic { elem, len } => (*elem).spec_format() + seq!['['] + dec_rep(
                len as nat,
            ) + seq![']'],
            AbiType::Address => seq!['a', 'd', 'd', 'r', 'e', 's', 's'],
            AbiType::ArrayDynamic { elem } => (*elem).spec_format() + seq!['[', ']'],
            AbiType::Str => seq!['s', 't', 'r', 'i', 'n', 'g'],
            AbiType::Tuple { children } => seq!['('] + spec_format_seq(children@) + seq![')'],
        }
    }

    /// Structural equality, read through boxes and element vectors.
    pub open spec fn deep_eq(self, other: AbiType) -> bool
        decreases self,
    {
        match (self, other) {
            (AbiType::Uint { bit_size: a }, AbiType::Uint { bit_size: b }) => a == b,
            (AbiType::Byte, AbiType::Byte) => true,
            (
                AbiType::UFixed { bit_size: a, precision: p },
                AbiType::UFixed { bit_size: b, precision: q },
            ) => a == b && p == q,
            (AbiType::Bool, AbiType::Bool) => true,
            (
                AbiType::ArrayStatic { elem: e1, len: l1 },
                AbiType::ArrayStatic { elem: e2, len: l2 },
            ) => l1 == l2 && (*e1).deep_eq(*e2),
            (AbiType::Address, AbiType::Address) => true,
            (AbiType::ArrayDynamic { elem: e1 }, AbiType::ArrayDynamic { elem: e2 }) => (
            *e1).deep_eq(*e2),
            (AbiType::Str, AbiType::Str) => true,
            (AbiType::Tuple { children: c1 }, AbiType::Tuple { children: c2 }) => c1.len()
                == c2.len() && forall|i: int|
                0 <= i < c1.len() ==> (#[trigger] c1[i]).deep_eq(c2[i]),
            _ => false,
        }
    }

    /// The numeric tag of this type.
    pub fn type_id(&self) -> (r: BaseType)
        ensures
            r == self.spec_type_id(),
    {
        match self {
            AbiType::Uint { .. } => BaseType(UINT),
            AbiType::Byte => BaseType(BYTE),
            AbiType::UFixed { .. } => BaseType(UFIXED),
            AbiType::Bool => BaseType(BOOL),
            AbiType::ArrayStatic { .. } => BaseType(ARRAY_STATIC),
            AbiType::Address => BaseType(ADDRESS),
            AbiType::ArrayDynamic { .. } => BaseType(ARRAY_DYNAMIC),
            AbiType::Str => BaseType(STRING),
            AbiType::Tuple { .. } => BaseType(TUPLE),
        }
    }

    pub open spec fn spec_type_id(self) -> BaseType {
        match self {
            AbiType::Uint { .. } => BaseType(UINT),
            AbiType::Byte => BaseType(BYTE),
            AbiType::UFixed { .. } => BaseType(UFIXED),
            AbiType::Bool => BaseType(BOOL),
            AbiType::ArrayStatic { .. } => BaseType(ARRAY_STATIC),
            AbiType::Address => BaseType(ADDRESS),
            AbiType::ArrayDynamic { .. } => BaseType(ARRAY_DYNAMIC),
            AbiType::Str => BaseType(STRING),
            AbiType::Tuple { .. } => BaseType(TUPLE),
        }
    }
}

pub open spec fn valid_bit_size(b: int) -> bool {
    8 <= b <= 512 && b % 8 == 0
}

/// Canonical strings of a type list, joined by commas.
pub open spec fn spec_format_seq(ts: Seq<AbiType>) -> Seq<char>
    decreases ts, 0int,
{
    if ts.len() == 0 {
        Seq::empty()
    } else if ts.len() == 1 {
        ts[0].spec_format()
    } else {
        spec_format_seq(ts.drop_last()) + seq![','] + ts.last().spec_format()
    }
}

/// The canonical strings of the types of a list, one sequence per type.
pub open spec fn spec_formats_of(ts: Seq<AbiType>) -> Seq<Seq<char>> {
    ts.map_values(|t: AbiType| t.spec_format())
}

/// `spec_format_seq` is the comma join of the element formats.
pub proof fn lemma_format_seq_join(ts: Seq<AbiType>)
    ensures
        spec_format_seq(ts) == join_commas(spec_formats_of(ts)),
    decreases ts.len(),
{
    let fs = spec_formats_of(ts);
    assert(fs.len() == ts.len());
    if ts.len() == 0 {
    } else if ts.len() == 1 {
        assert(fs[0] == ts[0].spec_format());
    } else {
        lemma_format_seq_join(ts.drop_last());
        assert(spec_formats_of(ts.drop_last()) =~= fs.drop_last());
        assert(fs.last() == ts.last().spec_format());
        assert(join_commas(fs) == join_commas(fs.drop_last()) + seq![','] + fs.last());
    }
}

/// Every canonical format is a valid list segment, and its shape (first and
/// last characters, bracket and digit positions) identifies its variant.
#[verifier::rlimit(100)]
pub proof fn lemma_format_shape(t: AbiType)
    requires
        t.wf(),
    ensures
        valid_segment(t.spec_format()),
        t.spec_format().len() >= 2,
        (t matches AbiType::Uint { bit_size } ==> {
            let f = t.spec_format();
            &&& f.len() >= 5
            &&& f[0] == 'u' && f[1] == 'i' && f[2] == 'n' && f[3] == 't'
            &&& f.skip(4) == dec_rep(bit_size as nat)
            &&& is_digit_char(f.last())
        }),
        (t matches AbiType::UFixed { bit_size, precision } ==> {
            let f = t.spec_format();
            let d1 = dec_rep(bit_size as nat);
            &&& f.len() == 7 + d1.len() + dec_rep(precision as nat).len()
            &&& f[0] == 'u' && f[1] == 'f' && f[2] == 'i' && f[3] == 'x' && f[4] == 'e' && f[5]
                == 'd'
            &&& (forall|j: int| 6 <= j < 6 + d1.len() ==> is_digit_char(#[trigger] f[j]))
            &&& f[6 + d1.len() as int] == 'x'
            &&& f.subrange(6, 6 + d1.len() as int) == d1
            &&& f.subrange(7 + d1.len() as int, f.len() as int) == dec_rep(precision as nat)
            &&& is_digit_char(f.last())
        }),
        (t matches AbiType::ArrayStatic { elem, len } ==> {
            let f = t.spec_format();
            let fe = (*elem).spec_format();
            &&& f.len() == fe.len() + 2 + dec_rep(len as nat).len()
            &&& f.take(fe.len() as int) == fe
            &&& f[fe.len() as int] == '['
            &&& f.subrange(fe.len() as int + 1, f.len() - 1) == dec_rep(len as nat)
            &&& (forall|j: int| fe.len() < j < f.len() ==> #[trigger] f[j] != '[')
            &&& f.last() == ']'
            &&& is_digit_char(f[f.len() - 2])
        }),
        (t matches AbiType::ArrayDynamic { elem } ==> {
            let f = t.spec_format();
            let fe = (*elem).spec_format();
            &&& f.len() == fe.len() + 2
            &&& f.take(f.len() - 2) == fe
            &&& f[f.len() - 2] == '['
            &&& f.last() == ']'
        }),
        (t matches AbiType::Tuple { children } ==> {
            let f = t.spec_format();
            &&& f[0] == '('
            &&& f.last() == ')'
            &&& f.subrange(1, f.len() - 1) == spec_format_seq(children@)
        }),
    decreases t,
{
    match t {
        AbiType::Uint { bit_size } => {
            let b = bit_size as nat;
            lemma_dec_rep_canonical(b);
            let d = dec_rep(b);
            let f = t.spec_format();
            assert(f =~= seq!['u', 'i', 'n', 't'] + d);
            assert(f.skip(4) =~= d);
            assert(f.last() == d.last());
            assert(is_digit_char(d[d.len() - 1]));
            assert forall|i: int|
                0 <= i < f.len() implies #[trigger] f[i] != '(' && f[i] != ')' && f[i] != ',' by {
                if i >= 4 {
                    assert(f[i] == d[i - 4]);
                    assert(is_digit_char(d[i - 4]));
                }
            }
            lemma_no_paren_comma_segment(f);
        },
        AbiType::Byte => {
            let f = t.spec_format();
            assert forall|i: int|
                0 <= i < f.len() implies #[trigger] f[i] != '(' && f[i] != ')' && f[i] != ',' by {
                assert(0 <= i < 4);
            }
            lemma_no_paren_comma_segment(f);
        },
        AbiType::Bool => {
            let f = t.spec_format();
            assert forall|i: int|
                0 <= i < f.len() implies #[trigger] f[i] != '(' && f[i] != ')' && f[i] != ',' by {
                assert(0 <= i < 4);
            }
            lemma_no_paren_comma_segment(f);
        },
        AbiType::Address => {
            let f = t.spec_format();
            assert forall|i: int|
                0 <= i < f.len() implies #[trigger] f[i] != '(' && f[i] != ')' && f[i] != ',' by {
                assert(0 <= i < 7);
            }
            lemma_no_paren_comma_segment(f);
        },
        AbiType::Str => {
            let f = t.spec_format();
            assert forall|i: int|
                0 <= i < f.len() implies #[trigger] f[i] != '(' && f[i] != ')' && f[i] != ',' by {
                assert(0 <= i < 6);
            }
            lemma_no_paren_comma_segment(f);
        },
        AbiType::UFixed { bit_size, precision } => {
            lemma_dec_rep_canonical(bit_size as nat);
            lemma_dec_rep_canonical(precision as nat);
            let d1 = dec_rep(bit_size as nat);
            let d2 = dec_rep(precision as nat);
            let f = t.spec_format();
            assert(f =~= seq!['u', 'f', 'i', 'x', 'e', 'd'] + d1 + seq!['x'] + d2);
            let l1 = d1.len() as int;
            assert(f.subrange(6, 6 + l1) =~= d1);
            assert(f.subrange(7 + l1, f.len() as int) =~= d2);
            assert(f[6 + l1] == 'x');
            assert(f.last() == d2.last());
            assert(is_digit_char(d2[d2.len() - 1]));
            assert forall|j: int| 6 <= j < 6 + l1 implies is_digit_char(#[trigger] f[j]) by {
                assert(f[j] == d1[j - 6]);
                assert(is_digit_char(d1[j - 6]));
            }
            assert forall|i: int|
                0 <= i < f.len() implies #[trigger] f[i] != '(' && f[i] != ')' && f[i] != ',' by {
                if 6 <= i < 6 + l1 {
                    assert(f[i] == d1[i - 6]);
                    assert(is_digit_char(d1[i - 6]));
                } else if i > 6 + l1 {
                    assert(f[i] == d2[i - 7 - l1]);
                    assert(is_digit_char(d2[i - 7 - l1]));
                }
            }
            lemma_no_paren_comma_segment(f);
        },
        AbiType::ArrayStatic { elem, len } => {
            lemma_format_shape(*elem);
            lemma_dec_rep_canonical(len as nat);
            let fe = (*elem).spec_format();
            let d = dec_rep(len as nat);
            let f = t.spec_format();
            let el = fe.len() as int;
            let rest = seq!['['] + d + seq![']'];
            assert(f =~= fe + rest);
            assert(f.take(el) =~= fe);
            assert(f[el] == '[');
            assert(f.subrange(el + 1, f.len() - 1) =~= d);
            assert(f.last() == ']');
            assert(f[f.len() - 2] == d.last());
            assert(is_digit_char(d[d.len() - 1]));
            assert forall|j: int| el < j < f.len() implies #[trigger] f[j] != '[' by {
                if j < f.len() - 1 {
                    assert(f[j] == d[j - el - 1]);
                    assert(is_digit_char(d[j - el - 1]));
                }
            }
            assert forall|j: int|
                0 <= j < rest.len() implies #[trigger] rest[j] != '(' && rest[j] != ')' && rest[j]
                != ',' by {
                if 0 < j < rest.len() - 1 {
                    assert(rest[j] == d[j - 1]);
                    assert(is_digit_char(d[j - 1]));
                }
            }
            lemma_pdepth_no_paren(rest);
            lemma_pdepth_concat(fe, rest);
            assert(pdepth(f) == 0);
            assert forall|i: int| 0 <= i <= f.len() implies pdepth(#[trigger] f.take(i)) >= 0 by {
                if i <= el {
                    assert(f.take(i) =~= fe.take(i));
                    assert(pdepth(fe.take(i)) >= 0);
                } else {
                    let rt = rest.take(i - el);
                    assert(f.take(i) =~= fe + rt);
                    assert forall|j: int|
                        0 <= j < rt.len() implies #[trigger] rt[j] != '(' && rt[j] != ')' by {
                        assert(rt[j] == rest[j]);
                    }
                    lemma_pdepth_no_paren(rt);
                    lemma_pdepth_concat(fe, rt);
                }
            }
            assert forall|i: int|
                0 <= i < f.len() && #[trigger] f[i] == ',' implies pdepth(f.take(i)) != 0 by {
                if i < el {
                    assert(f[i] == fe[i]);
                    assert(f.take(i) =~= fe.take(i));
                    assert(pdepth(fe.take(i)) != 0);
                } else {
                    assert(f[i] == rest[i - el]);
                }
            }
            assert(valid_segment(f));
        },
        AbiType::ArrayDynamic { elem } => {
            lemma_format_shape(*elem);
            let fe = (*elem).spec_format();
            let f = t.spec_format();
            let el = fe.len() as int;
            let rest = seq!['[', ']'];
            assert(f =~= fe + rest);
            assert(f.take(f.len() - 2) =~= fe);
            assert(f[f.len() - 2] == '[');
            assert(f.last() == ']');
            assert forall|j: int|
                0 <= j < rest.len() implies #[trigger] rest[j] != '(' && rest[j] != ')' && rest[j]
                != ',' by {
                assert(0 <= j < 2);
            }
            lemma_pdepth_no_paren(rest);
            lemma_pdepth_concat(fe, rest);
            assert(pdepth(f) == 0);
            assert forall|i: int| 0 <= i <= f.len() implies pdepth(#[trigger] f.take(i)) >= 0 by {
                if i <= el {
                    assert(f.take(i) =~= fe.take(i));
                    assert(pdepth(fe.take(i)) >= 0);
                } else {
                    let rt = rest.take(i - el);
                    assert(f.take(i) =~= fe + rt);
                    assert forall|j: int|
                        0 <= j < rt.len() implies #[trigger] rt[j] != '(' && rt[j] != ')' by {
                        assert(rt[j] == rest[j]);
                    }
                    lemma_pdepth_no_paren(rt);
                    lemma_pdepth_concat(fe, rt);
                }
            }
            assert forall|i: int|
                0 <= i < f.len() && #[trigger] f[i] == ',' implies pdepth(f.take(i)) != 0 by {
                if i < el {
                    assert(f[i] == fe[i]);
                    assert(f.take(i) =~= fe.take(i));
                    assert(pdepth(fe.take(i)) != 0);
                } else {
                    assert(f[i] == rest[i - el]);
                }
            }
            assert(valid_segment(f));
        },
        AbiType::Tuple { children } => {
            let cs = children@;
            let f = t.spec_format();
            let j = spec_format_seq(cs);
            assert(f == seq!['('] + j + seq![')']);
            lemma_pdepth_single('(');
            lemma_pdepth_single(')');
            if cs.len() == 0 {
                assert(j =~= Seq::<char>::empty());
                assert(f =~= seq!['(', ')']);
                assert(f.subrange(1, f.len() - 1) =~= j);
                assert(f.drop_last() =~= seq!['(']);
                assert(pdepth(f) == 0);
                assert forall|i: int|
                    0 <= i <= f.len() implies pdepth(#[trigger] f.take(i)) >= 0 by {
                    if i == 0 {
                        assert(f.take(0) =~= Seq::<char>::empty());
                    } else if i == 1 {
                        assert(f.take(1) =~= seq!['(']);
                    } else {
                        assert(f.take(2) =~= f);
                    }
                }
                assert(no_top_comma(f));
                assert(valid_segment(f));
            } else {
                assert forall|i: int|
                    0 <= i < cs.len() implies valid_segment(#[trigger] spec_formats_of(cs)[i]) by {
                    assert(spec_formats_of(cs)[i] == cs[i].spec_format());
                    assert(children[i].wf());
                    lemma_format_shape(cs[i]);
                }
                lemma_format_seq_join(cs);
                let fs = spec_formats_of(cs);
                assert(join_commas(fs) == j);
                lemma_join_balanced(fs);
                assert(f[0] == '(');
                assert(f.last() == ')');
                assert(f.subrange(1, f.len() - 1) =~= j);
                lemma_pdepth_concat(seq!['('], j);
                lemma_pdepth_concat(seq!['('] + j, seq![')']);
                assert(pdepth(f) == 0);
                assert forall|i: int|
                    0 <= i <= f.len() implies pdepth(#[trigger] f.take(i)) >= 0 by {
                    if i == 0 {
                        assert(f.take(0) =~= Seq::<char>::empty());
                    } else if i <= 1 + j.len() {
                        assert(f.take(i) =~= seq!['('] + j.take(i - 1));
                        lemma_pdepth_concat(seq!['('], j.take(i - 1));
                        assert(pdepth(j.take(i - 1)) >= 0);
                    } else {
                        assert(f.take(i) =~= f);
                    }
                }
                assert forall|i: int|
                    0 <= i < f.len() && #[trigger] f[i] == ',' implies pdepth(f.take(i)) != 0 by {
                    assert(i != 0);
                    assert(i != f.len() - 1);
                    assert(f.take(i) =~= seq!['('] + j.take(i - 1));
                    lemma_pdepth_concat(seq!['('], j.take(i - 1));
                    assert(pdepth(j.take(i - 1)) >= 0);
                }
                assert(valid_segment(f));
            }
        },
    }
}

/// No canonical format contains two adjacent commas: every comma of a
/// format separates two non-empty element formats at some nesting depth.
pub proof fn lemma_format_no_double_comma(t: AbiType)
    requires
        t.wf(),
    ensures
        !has_double_comma(t.spec_format()),
    decreases t,
{
    let f = t.spec_format();
    match t {
        AbiType::Uint { bit_size } => {
            lemma_dec_rep_canonical(bit_size as nat);
            let d = dec_rep(bit_size as nat);
            assert forall|i: int| 0 <= i < f.len() implies #[trigger] f[i] != ',' by {
                if i >= 4 {
                    assert(f[i] == d[i - 4]);
                    assert(is_digit_char(d[i - 4]));
                }
            }
        },
        AbiType::Byte => {
            assert forall|i: int| 0 <= i < f.len() implies #[trigger] f[i] != ',' by {
                assert(0 <= i < 4);
            }
        },
        AbiType::UFixed { bit_size, precision } => {
            lemma_dec_rep_canonical(bit_size as nat);
            lemma_dec_rep_canonical(precision as nat);
            let d1 = dec_rep(bit_size as nat);
            let d2 = dec_rep(precision as nat);
            let l1 = d1.len() as int;
            assert forall|i: int| 0 <= i < f.len() implies #[trigger] f[i] != ',' by {
                if 6 <= i < 6 + l1 {
                    assert(f[i] == d1[i - 6]);
                    assert(is_digit_char(d1[i - 6]));
                } else if i > 6 + l1 {
                    assert(f[i] == d2[i - 7 - l1]);
                    assert(is_digit_char(d2[i - 7 - l1]));
                }
            }
        },
        AbiType::Bool => {
            assert forall|i: int| 0 <= i < f.len() implies #[trigger] f[i] != ',' by {
                assert(0 <= i < 4);
            }
        },
        AbiType::ArrayStatic { elem, len } => {
            lemma_format_no_double_comma(*elem);
            lemma_dec_rep_canonical(len as nat);
            let fe = (*elem).spec_format();
            let d = dec_rep(len as nat);
            let rest = seq!['['] + d + seq![']'];
            let el = fe.len() as int;
            assert(f =~= fe + rest);
            assert forall|i: int| el <= i < f.len() implies #[trigger] f[i] != ',' by {
                assert(f[i] == rest[i - el]);
                if 0 < i - el < rest.len() - 1 {
                    assert(rest[i - el] == d[i - el - 1]);
                    assert(is_digit_char(d[i - el - 1]));
                }
            }
            if has_double_comma(f) {
                let q = choose|q: int| 0 <= q && q + 1 < f.len() && #[trigger] f[q] == ',' && f[q
                    + 1] == ',';
                assert(q + 1 < el);
                assert(f[q] == fe[q] && f[q + 1] == fe[q + 1]);
                assert(has_double_comma(fe));
                assert(false);
            }
        },
        AbiType::Address => {
            assert forall|i: int| 0 <= i < f.len() implies #[trigger] f[i] != ',' by {
                assert(0 <= i < 7);
            }
        },
        AbiType::ArrayDynamic { elem } => {
            lemma_format_no_double_comma(*elem);
            let fe = (*elem).spec_format();
            let rest = seq!['[', ']'];
            let el = fe.len() as int;
            assert(f =~= fe + rest);
            assert forall|i: int| el <= i < f.len() implies #[trigger] f[i] != ',' by {
                assert(f[i] == rest[i - el]);
            }
            if has_double_comma(f) {
                let q = choose|q: int| 0 <= q && q + 1 < f.len() && #[trigger] f[q] == ',' && f[q
                    + 1] == ',';
                assert(q + 1 < el);
                assert(f[q] == fe[q] && f[q + 1] == fe[q + 1]);
                assert(has_double_comma(fe));
                assert(false);
            }
        },
        AbiType::Str => {
            assert forall|i: int| 0 <= i < f.len() implies #[trigger] f[i] != ',' by {
                assert(0 <= i < 6);
            }
        },
        AbiType::Tuple { children } => {
            let cs = children@;
            let j = spec_format_seq(cs);
            assert(f == seq!['('] + j + seq![')']);
            if cs.len() == 0 {
                assert(f =~= seq!['(', ')']);
                if has_double_comma(f) {
                    let q = choose|q: int| 0 <= q && q + 1 < f.len() && #[trigger] f[q] == ','
                        && f[q + 1] == ',';
                    assert(false);
                }
            } else {
                let fs = spec_formats_of(cs);
                assert forall|i: int| 0 <= i < fs.len() implies valid_segment(#[trigger] fs[i])
                    && !has_double_comma(fs[i]) by {
                    assert(children[i].wf());
                    lemma_format_shape(cs[i]);
                    lemma_format_no_double_comma(cs[i]);
                    assert(fs[i] == cs[i].spec_format());
                }
                lemma_format_seq_join(cs);
                lemma_join_no_double_comma(fs);
                if has_double_comma(f) {
                    let q = choose|q: int| 0 <= q && q + 1 < f.len() && #[trigger] f[q] == ','
                        && f[q + 1] == ',';
                    assert(f[0] == '(' && f[f.len() - 1] == ')');
                    assert(1 <= q && q + 2 < f.len());
                    assert(f[q] == j[q - 1] && f[q + 1] == j[q]);
                    assert(has_double_comma(j));
                    assert(false);
                }
            }
        },
    }
}

/// Which variant a canonical format string came from, read off the string.
pub open spec fn format_class(f: Seq<char>) -> int {
    if f.len() < 2 {
        -1
    } else if f.last() == ']' {
        if f[f.len() - 2] == '[' {
            ARRAY_DYNAMIC as int
        } else {
            ARRAY_STATIC as int
        }
    } else if f[0] == '(' {
        TUPLE as int
    } else if f == seq!['b', 'y', 't', 'e'] {
        BYTE as int
    } else if f == seq!['b', 'o', 'o', 'l'] {
        BOOL as int
    } else if f == seq!['a', 'd', 'd', 'r', 'e', 's', 's'] {
        ADDRESS as int
    } else if f == seq!['s', 't', 'r', 'i', 'n', 'g'] {
        STRING as int
    } else if f[0] == 'u' && f[1] == 'i' {
        UINT as int
    } else if f[0] == 'u' && f[1] == 'f' {
        UFIXED as int
    } else {
        -1
    }
}

/// The class read off a well-formed type's format is that type's own tag.
pub proof fn lemma_format_class(t: AbiType)
    requires
        t.wf(),
    ensures
        format_class(t.spec_format()) == t.spec_type_id().0 as int,
{
    lemma_format_shape(t);
    let f = t.spec_format();
    match t {
        AbiType::Uint { bit_size } => {
            assert(f.last() != ']');
            assert(f[0] != '(');
            assert(f != seq!['b', 'y', 't', 'e'] && f != seq!['b', 'o', 'o', 'l'] && f != seq![
                'a',
                'd',
                'd',
                'r',
                'e',
                's',
                's',
            ] && f != seq!['s', 't', 'r', 'i', 'n', 'g']) by {
                assert(f[0] == 'u');
            }
        },
        AbiType::Byte => {},
        AbiType::UFixed { bit_size, precision } => {
            assert(f.last() != ']');
            assert(f[0] != '(');
            assert(f != seq!['b', 'y', 't', 'e'] && f != seq!['b', 'o', 'o', 'l'] && f != seq![
                'a',
                'd',
                'd',
                'r',
                'e',
                's',
                's',
            ] && f != seq!['s', 't', 'r', 'i', 'n', 'g']) by {
                assert(f[0] == 'u');
            }
        },
        AbiType::Bool => {
            assert(f != seq!['b', 'y', 't', 'e']) by {
                assert(f[1] == 'o');
            }
        },
        AbiType::ArrayStatic { elem, len } => {},
        AbiType::Address => {
            assert(f != seq!['b', 'y', 't', 'e'] && f != seq!['b', 'o', 'o', 'l']) by {
                assert(f[0] == 'a');
            }
        },
        AbiType::ArrayDynamic { elem } => {},
        AbiType::Str => {
            assert(f != seq!['b', 'y', 't', 'e'] && f != seq!['b', 'o', 'o', 'l'] && f != seq![
                'a',
                'd',
                'd',
                'r',
                'e',
                's',
                's',
            ]) by {
                assert(f[0] == 's');
            }
        },
        AbiType::Tuple { children } => {
            assert(f.last() != ']');
        },
    }
}

/// Whether `s` is the canonical string of some well-formed type: exactly the
/// strings that the type parser accepts.
pub open spec fn is_type_str(s: Seq<char>) -> bool {
    exists|t: AbiType| t.wf() && #[trigger] t.spec_format() == s
}

/// Every well-formed type's canonical string is an accepted type string, so
/// by the parser's contract `AbiType::from_string` cannot fail on the output
/// of `AbiType::string`.
pub proof fn lemma_format_is_type_str(t: AbiType)
    requires
        t.wf(),
    ensures
        is_type_str(t.spec_format()),
{
}

/// Round trip, second direction: a well-formed type is recovered exactly
/// from its canonical string. With the contracts of [`AbiType::from_string`]
/// and [`AbiType::string`] this gives `from_string(string(t))` structurally
/// equal to `t` for every constructible `t`, while the first direction,
/// `string(from_string(s)) == s` for every accepted `s`, is the parser's own
/// postcondition.
pub proof fn lemma_format_injective(t1: AbiType, t2: AbiType)
    requires
        t1.wf(),
        t2.wf(),
        t1.spec_format() == t2.spec_format(),
    ensures
        t1.deep_eq(t2),
    decreases t1,
{
    let f = t1.spec_format();
    lemma_format_shape(t1);
    lemma_format_shape(t2);
    lemma_format_class(t1);
    lemma_format_class(t2);
    assert(t1.spec_type_id() == t2.spec_type_id());
    match (t1, t2) {
        (AbiType::Uint { bit_size: a }, AbiType::Uint { bit_size: b }) => {
            assert(dec_rep(a as nat) == f.skip(4) && dec_rep(b as nat) == f.skip(4));
            lemma_dec_rep_canonical(a as nat);
            lemma_dec_rep_canonical(b as nat);
            assert(dec_val(dec_rep(a as nat)) == dec_val(dec_rep(b as nat)));
        },
        (AbiType::Byte, AbiType::Byte) => {},
        (
            AbiType::UFixed { bit_size: a, precision: p },
            AbiType::UFixed { bit_size: b, precision: q },
        ) => {
            let da = dec_rep(a as nat);
            let db = dec_rep(b as nat);
            lemma_dec_rep_canonical(a as nat);
            lemma_dec_rep_canonical(b as nat);
            lemma_dec_rep_canonical(p as nat);
            lemma_dec_rep_canonical(q as nat);
            if da.len() < db.len() {
                assert(f[6 + da.len() as int] == 'x');
                assert(is_digit_char(f[6 + da.len() as int]));
                assert(false);
            }
            if db.len() < da.len() {
                assert(f[6 + db.len() as int] == 'x');
                assert(is_digit_char(f[6 + db.len() as int]));
                assert(false);
            }
            assert(da =~= db);
            assert(dec_val(da) == dec_val(db));
            assert(dec_rep(p as nat) == dec_rep(q as nat));
            assert(dec_val(dec_rep(p as nat)) == dec_val(dec_rep(q as nat)));
        },
        (AbiType::Bool, AbiType::Bool) => {},
        (
            AbiType::ArrayStatic { elem: e1, len: l1 },
            AbiType::ArrayStatic { elem: e2, len: l2 },
        ) => {
            let fa = (*e1).spec_format();
            let fb = (*e2).spec_format();
            if fa.len() < fb.len() {
                assert(f[fb.len() as int] == '[');
                assert(false);
            }
            if fb.len() < fa.len() {
                assert(f[fa.len() as int] == '[');
                assert(false);
            }
            assert(fa == f.take(fa.len() as int) && fb == f.take(fb.len() as int));
            lemma_format_injective(*e1, *e2);
            assert(dec_rep(l1 as nat) == dec_rep(l2 as nat));
            lemma_dec_rep_canonical(l1 as nat);
            lemma_dec_rep_canonical(l2 as nat);
            assert(dec_val(dec_rep(l1 as nat)) == dec_val(dec_rep(l2 as nat)));
        },
        (AbiType::Address, AbiType::Address) => {},
        (AbiType::ArrayDynamic { elem: e1 }, AbiType::ArrayDynamic { elem: e2 }) => {
            assert((*e1).spec_format() == f.take(f.len() - 2));
            assert((*e2).spec_format() == f.take(f.len() - 2));
            lemma_format_injective(*e1, *e2);
        },
        (AbiType::Str, AbiType::Str) => {},
        (AbiType::Tuple { children: c1 }, AbiType::Tuple { children: c2 }) => {
            let inner = f.subrange(1, f.len() - 1);
            assert(spec_format_seq(c1@) == inner);
            assert(spec_format_seq(c2@) == inner);
            lemma_format_seq_join(c1@);
            lemma_format_seq_join(c2@);
            let fs1 = spec_formats_of(c1@);
            let fs2 = spec_formats_of(c2@);
            assert forall|i: int|
                0 <= i < c1.len() implies valid_segment(#[trigger] fs1[i]) by {
                assert(c1[i].wf());
                lemma_format_shape(c1@[i]);
                assert(fs1[i] == c1@[i].spec_format());
            }
            assert forall|i: int|
                0 <= i < c2.len() implies valid_segment(#[trigger] fs2[i]) by {
                assert(c2[i].wf());
                lemma_format_shape(c2@[i]);
                assert(fs2[i] == c2@[i].spec_format());
            }
            if c1.len() == 0 {
                if c2.len() > 0 {
                    lemma_join_balanced(fs2);
                    assert(inner.len() >= 1);
                    assert(false);
                }
            } else {
                if c2.len() == 0 {
                    lemma_join_balanced(fs1);
                    assert(inner.len() >= 1);
                    assert(false);
                }
                assert(is_segments(inner, fs1));
                assert(is_segments(inner, fs2));
                lemma_segments_unique(inner, fs1, fs2);
                assert(c1.len() == c2.len());
                assert forall|i: int|
                    0 <= i < c1.len() implies (#[trigger] c1[i]).deep_eq(c2[i]) by {
                    assert(c1[i].wf());
                    assert(c2[i].wf());
                    assert(fs1[i] == c1@[i].spec_format());
                    assert(fs2[i] == c2@[i].spec_format());
                    lemma_format_injective(c1@[i], c2@[i]);
                }
            }
        },
        _ => {
            assert(false);
        },
    }
}

// ---------------------------------------------------------------------------
// Constructors
// ---------------------------------------------------------------------------
/// Makes a dynamic-array type over the given element type.
pub fn make_dynamic_array_type(arg_type: AbiType) -> (r: AbiType)
    ensures
        (r matches AbiType::ArrayDynamic { elem } && *elem == arg_type),
        r.spec_format() == arg_type.spec_format() + seq!['[', ']'],
        arg_type.wf() ==> r.wf(),
{
    AbiType::ArrayDynamic { elem: Box::new(arg_type) }
}

/// Makes a static-array type over the given element type and length.
pub fn make_static_array_type(arg_type: AbiType, array_len: u16) -> (r: AbiType)
    ensures
        (r matches AbiType::ArrayStatic { elem, len } && *elem == arg_type && len == array_len),
        r.spec_format() == arg_type.spec_format() + seq!['['] + dec_rep(array_len as nat)
            + seq![']'],
        arg_type.wf() ==> r.wf(),
{
    AbiType::ArrayStatic { elem: Box::new(arg_type), len: array_len }
}

/// Makes a `uint` type; the bit size must lie in [8, 512] and be a multiple
/// of 8, otherwise a range error is returned.
pub fn make_uint_type(type_size: u32) -> (r: Result<AbiType, AbiError>)
    ensures
        valid_bit_size(type_size as int) ==> (r matches Ok(t) && t == (AbiType::Uint {
            bit_size: type_size as u16,
        })),
        !valid_bit_size(type_size as int) ==> r is Err,
{
    if type_size % 8 != 0 || type_size < 8 || type_size > 512 {
        return Err(AbiError::Msg(String::from_str("unsupported uint type bitSize")));
    }
    Ok(AbiType::Uint { bit_size: type_size as u16 })
}

/// Makes one of the parameterless types `byte`, `bool`, `address`, `string`
/// from its numeric tag.
pub fn make_empty_fields_type(type_: BaseType) -> (r: AbiType)
    requires
        type_.0 == BYTE || type_.0 == BOOL || type_.0 == ADDRESS || type_.0 == STRING,
    ensures
        type_.0 == BYTE ==> r == AbiType::Byte,
        type_.0 == BOOL ==> r == AbiType::Bool,
        type_.0 == ADDRESS ==> r == AbiType::Address,
        type_.0 == STRING ==> r == AbiType::Str,
        r.wf(),
        r.spec_type_id() == type_,
{
    if type_.0 == BYTE {
        AbiType::Byte
    } else if type_.0 == BOOL {
        AbiType::Bool
    } else if type_.0 == ADDRESS {
        AbiType::Address
    } else {
        AbiType::Str
    }
}

/// Makes a `ufixed` type; the bit size is validated as for `uint` and the
/// precision must lie in [1, 160].
pub fn make_ufixed_type(type_size: u32, type_precision: u32) -> (r: Result<AbiType, AbiError>)
    ensures
        valid_bit_size(type_size as int) && 1 <= type_precision <= 160 ==> (r matches Ok(t) && t
            == (AbiType::UFixed { bit_size: type_size as u16, precision: type_precision as u16 })),
        !(valid_bit_size(type_size as int) && 1 <= type_precision <= 160) ==> r is Err,
{
    if type_size % 8 != 0 || type_size < 8 || type_size > 512 {
        return Err(AbiError::Msg(String::from_str("unsupported ufixed type bitSize")));
    }
    if type_precision < 1 || type_precision > 160 {
        return Err(AbiError::Msg(String::from_str("unsupported ufixed type precision")));
    }
    Ok(AbiType::UFixed { bit_size: type_size as u16, precision: type_precision as u16 })
}

/// Makes a tuple type from its element types; the element count must stay
/// below 65535 so that it fits the 16-bit length tag.
pub fn make_tuple_type(argument_types: Vec<AbiType>) -> (r: Result<AbiType, AbiError>)
    ensures
        argument_types@.len() < 65535 ==> (r matches Ok(t) && t == (AbiType::Tuple {
            children: argument_types,
        })),
        argument_types@.len() >= 65535 ==> r is Err,
{
    if argument_types.len() >= 65535 {
        return Err(
            AbiError::Msg(
                String::from_str("tuple type child type number larger than maximum uint16 error"),
            ),
        );
    }
    Ok(AbiType::Tuple { children: argument_types })
}

// ---------------------------------------------------------------------------
// Serialization
// ---------------------------------------------------------------------------
/// Relies on `String: FromIterator<char>`: collecting a vector of characters
/// yields the string of exactly those characters, in order.
#[verifier::external_body]
pub(crate) fn chars_to_string(v: &Vec<char>) -> (s: String)
    ensures
        s@ == v@,
{
    v.iter().collect()
}

/// Collects the characters of a string slice into a vector.
pub(crate) fn str_to_chars(s: &str) -> (v: Vec<char>)
    ensures
        v@ == s@,
{
    let n = s.unicode_len();
    let mut v: Vec<char> = Vec::new();
    for i in 0..n
        invariant
            n == s@.len(),
            v@ == s@.take(i as int),
    {
        let c = s.get_char(i);
        v.push(c);
        proof {
            assert(v@ =~= s@.take(i + 1));
        }
    }
    proof {
        assert(s@.take(n as int) =~= s@);
    }
    v
}

fn digit_to_char(d: u32) -> (c: char)
    requires
        d < 10,
    ensures
        c == digit_char(d as nat),
{
    if d == 0 {
        '0'
    } else if d == 1 {
        '1'
    } else if d == 2 {
        '2'
    } else if d == 3 {
        '3'
    } else if d == 4 {
        '4'
    } else if d == 5 {
        '5'
    } else if d == 6 {
        '6'
    } else if d == 7 {
        '7'
    } else if d == 8 {
        '8'
    } else {
        '9'
    }
}

/// Appends the canonical decimal numeral of `v`.
fn push_dec(out: &mut Vec<char>, v: u32)
    ensures
        final(out)@ == old(out)@ + dec_rep(v as nat),
    decreases v,
{
    if v < 10 {
        let c = digit_to_char(v);
        out.push(c);
        proof {
            assert(out@ =~= old(out)@ + dec_rep(v as nat));
        }
    } else {
        push_dec(out, v / 10);
        let c = digit_to_char(v % 10);
        out.push(c);
        proof {
            assert(out@ =~= old(out)@ + dec_rep(v as nat));
        }
    }
}

impl AbiType {
    /// Appends the canonical string of this type to `out`.
    #[verifier::loop_isolation(false)]
    fn format_into(&self, out: &mut Vec<char>)
        ensures
            final(out)@ == old(out)@ + self.spec_format(),
        decreases *self,
    {
        match self {
            AbiType::Uint { bit_size } => {
                out.push('u');
                out.push('i');
                out.push('n');
                out.push('t');
                push_dec(out, *bit_size as u32);
                proof {
                    assert(out@ =~= old(out)@ + self.spec_format());
                }
            },
            AbiType::Byte => {
                out.push('b');
                out.push('y');
                out.push('t');
                out.push('e');
                proof {
                    assert(out@ =~= old(out)@ + self.spec_format());
                }
            },
            AbiType::UFixed { bit_size, precision } => {
                out.push('u');
                out.push('f');
                out.push('i');
                out.push('x');
                out.push('e');
                out.push('d');
                push_dec(out, *bit_size as u32);
                out.push('x');
                push_dec(out, *precision as u32);
                proof {
                    assert(out@ =~= old(out)@ + self.spec_format());
                }
            },
            AbiType::Bool => {
                out.push('b');
                out.push('o');
                out.push('o');
                out.push('l');
                proof {
                    assert(out@ =~= old(out)@ + self.spec_format());
                }
            },
            AbiType::ArrayStatic { elem, len } => {
                elem.format_into(out);
                out.push('[');
                push_dec(out, *len as u32);
                out.push(']');
                proof {
                    assert(out@ =~= old(out)@ + self.spec_format());
                }
            },
            AbiType::Address => {
                out.push('a');
                out.push('d');
                out.push('d');
                out.push('r');
                out.push('e');
                out.push('s');
                out.push('s');
                proof {
                    assert(out@ =~= old(out)@ + self.spec_format());
                }
            },
            AbiType::ArrayDynamic { elem } => {
                elem.format_into(out);
                out.push('[');
                out.push(']');
                proof {
                    assert(out@ =~= old(out)@ + self.spec_format());
                }
            },
            AbiType::Str => {
                out.push('s');
                out.push('t');
                out.push('r');
                out.push('i');
                out.push('n');
                out.push('g');
                proof {
                    assert(out@ =~= old(out)@ + self.spec_format());
                }
            },
            AbiType::Tuple { children } => {
                out.push('(');
                let n = children.len();
                for i in 0..n
                    invariant
                        n == children.len(),
                        self == (AbiType::Tuple { children: *children }),
                        out@ == old(out)@ + seq!['('] + spec_format_seq(children@.take(i as int)),
                {
                    if i > 0 {
                        out.push(',');
                    }
                    let child = &children[i];
                    child.format_into(out);
                    proof {
                        let cs = children@;
                        assert(cs.take(i + 1).drop_last() =~= cs.take(i as int));
                        assert(cs.take(i + 1).last() == cs[i as int]);
                        if i == 0 {
                            assert(spec_format_seq(cs.take(1)) == cs[0].spec_format());
                            assert(out@ =~= old(out)@ + seq!['('] + spec_format_seq(cs.take(1)));
                        } else {
                            assert(spec_format_seq(cs.take(i + 1)) == spec_format_seq(
                                cs.take(i as int),
                            ) + seq![','] + cs[i as int].spec_format());
                            assert(out@ =~= old(out)@ + seq!['('] + spec_format_seq(cs.take(i + 1)));
                        }
                    }
                }
                out.push(')');
                proof {
                    assert(children@.take(n as int) =~= children@);
                    assert(out@ =~= old(out)@ + self.spec_format());
                }
            },
        }
    }

    /// Serializes this type to its canonical string.
    pub fn string(&self) -> (r: Result<String, AbiError>)
        ensures
            (r matches Ok(s) && s@ == self.spec_format()),
    {
        let mut out: Vec<char> = Vec::new();
        self.format_into(&mut out);
        proof {
            assert(out@ =~= self.spec_format());
        }
        Ok(chars_to_string(&out))
    }
}

// ---------------------------------------------------------------------------
// Equality and cloning
// ---------------------------------------------------------------------------
/// Structural comparison of two types.
#[verifier::loop_isolation(false)]
fn abi_type_eq(a: &AbiType, b: &AbiType) -> (r: bool)
    ensures
        r == a.deep_eq(*b),
    decreases *a,
{
    match (a, b) {
        (AbiType::Uint { bit_size: x }, AbiType::Uint { bit_size: y }) => *x == *y,
        (AbiType::Byte, AbiType::Byte) => true,
        (
            AbiType::UFixed { bit_size: x, precision: p },
            AbiType::UFixed { bit_size: y, precision: q },
        ) => *x == *y && *p == *q,
        (AbiType::Bool, AbiType::Bool) => true,
        (
            AbiType::ArrayStatic { elem: e1, len: l1 },
            AbiType::ArrayStatic { elem: e2, len: l2 },
        ) => *l1 == *l2 && abi_type_eq(e1, e2),
        (AbiType::Address, AbiType::Address) => true,
        (AbiType::ArrayDynamic { elem: e1 }, AbiType::ArrayDynamic { elem: e2 }) => abi_type_eq(
            e1,
            e2,
        ),
        (AbiType::Str, AbiType::Str) => true,
        (AbiType::Tuple { children: c1 }, AbiType::Tuple { children: c2 }) => {
            if c1.len() != c2.len() {
                false
            } else {
                let n = c1.len();
                for i in 0..n
                    invariant
                        n == c1.len() == c2.len(),
                        a == (AbiType::Tuple { children: *c1 }),
                        b == (AbiType::Tuple { children: *c2 }),
                        forall|j: int| 0 <= j < i ==> (#[trigger] c1@[j]).deep_eq(c2@[j]),
                {
                    let child = &c1[i];
                    if !abi_type_eq(child, &c2[i]) {
                        return false;
                    }
                }
                true
            }
        },
        _ => false,
    }
}

impl PartialEq for AbiType {
    /// Structural equality: tag and all fields match recursively.
    fn eq(&self, other: &AbiType) -> bool {
        abi_type_eq(self, other)
    }
}

impl Eq for AbiType {

}

impl vstd::std_specs::cmp::PartialEqSpecImpl for AbiType {
    open spec fn obeys_eq_spec() -> bool {
        true
    }

    open spec fn eq_spec(&self, other: &AbiType) -> bool {
        self.deep_eq(*other)
    }
}

/// Structural deep copy of a type.
#[verifier::loop_isolation(false)]
fn clone_type(t: &AbiType) -> (r: AbiType)
    ensures
        r.deep_eq(*t),
    decreases *t,
{
    match t {
        AbiType::Uint { bit_size } => AbiType::Uint { bit_size: *bit_size },
        AbiType::Byte => AbiType::Byte,
        AbiType::UFixed { bit_size, precision } => AbiType::UFixed {
            bit_size: *bit_size,
            precision: *precision,
        },
        AbiType::Bool => AbiType::Bool,
        AbiType::ArrayStatic { elem, len } => AbiType::ArrayStatic {
            elem: Box::new(clone_type(elem)),
            len: *len,
        },
        AbiType::Address => AbiType::Address,
        AbiType::ArrayDynamic { elem } => AbiType::ArrayDynamic {
            elem: Box::new(clone_type(elem)),
        },
        AbiType::Str => AbiType::Str,
        AbiType::Tuple { children } => {
            let n = children.len();
            let mut copies: Vec<AbiType> = Vec::new();
            for i in 0..n
                invariant
                    n == children.len(),
                    t == (AbiType::Tuple { children: *children }),
                    copies@.len() == i,
                    forall|j: int| 0 <= j < i ==> (#[trigger] copies@[j]).deep_eq(children@[j]),
            {
                let child = &children[i];
                copies.push(clone_type(child));
            }
            AbiType::Tuple { children: copies }
        },
    }
}

impl Clone for AbiType {
    /// The copy is structurally equal to the original.
    fn clone(&self) -> (r: Self)
        ensures
            r.deep_eq(*self),
    {
        clone_type(self)
    }
}

/// `deep_eq` respects the canonical format and the range invariants.
pub proof fn lemma_deep_eq_format(t1: AbiType, t2: AbiType)
    requires
        t1.deep_eq(t2),
    ensures
        t1.spec_format() == t2.spec_format(),
        t1.wf() == t2.wf(),
        t1.spec_type_id() == t2.spec_type_id(),
    decreases t1,
{
    match (t1, t2) {
        (
            AbiType::ArrayStatic { elem: e1, len: l1 },
            AbiType::ArrayStatic { elem: e2, len: l2 },
        ) => {
            lemma_deep_eq_format(*e1, *e2);
        },
        (AbiType::ArrayDynamic { elem: e1 }, AbiType::ArrayDynamic { elem: e2 }) => {
            lemma_deep_eq_format(*e1, *e2);
        },
        (AbiType::Tuple { children: c1 }, AbiType::Tuple { children: c2 }) => {
            assert forall|i: int|
                0 <= i < c1.len() implies (#[trigger] c1@[i]).spec_format() == c2@[i].spec_format()
                && c1@[i].wf() == c2@[i].wf() by {
                assert(c1[i].deep_eq(c2[i]));
                lemma_deep_eq_format(c1@[i], c2@[i]);
            }
            lemma_format_seq_pointwise(c1@, c2@);
            if t1.wf() {
                assert forall|i: int| 0 <= i < c2.len() implies (#[trigger] c2[i]).wf() by {
                    assert(c1[i].wf());
                    assert(c1[i].deep_eq(c2[i]));
                    lemma_deep_eq_format(c1@[i], c2@[i]);
                }
                assert(t2.wf());
            }
            if t2.wf() {
                assert forall|i: int| 0 <= i < c1.len() implies (#[trigger] c1[i]).wf() by {
                    assert(c2[i].wf());
                    assert(c1[i].deep_eq(c2[i]));
                    lemma_deep_eq_format(c1@[i], c2@[i]);
                }
                assert(t1.wf());
            }
        },
        _ => {},
    }
}

// ---------------------------------------------------------------------------
// Parsing
// ---------------------------------------------------------------------------
fn is_digit_exec(c: char) -> (b: bool)
    ensures
        b == is_digit_char(c),
{
    c == '0' || c == '1' || c == '2' || c == '3' || c == '4' || c == '5' || c == '6' || c == '7'
        || c == '8' || c == '9'
}

fn digit_value(c: char) -> (d: u32)
    requires
        is_digit_char(c),
    ensures
        d == digit_val(c),
        d < 10,
{
    if c == '0' {
        0
    } else if c == '1' {
        1
    } else if c == '2' {
        2
    } else if c == '3' {
        3
    } else if c == '4' {
        4
    } else if c == '5' {
        5
    } else if c == '6' {
        6
    } else if c == '7' {
        7
    } else if c == '8' {
        8
    } else {
        9
    }
}

/// Reads `v[start..end]` as a canonical decimal numeral whose value is at
/// most `max`; rejects anything else, including leading zeros.
#[verifier::loop_isolation(false)]
fn parse_dec(v: &Vec<char>, start: usize, end: usize, max: u32) -> (r: Option<u32>)
    requires
        start <= end <= v@.len(),
        max <= 65535,
    ensures
        ({
            let d = v@.subrange(start as int, end as int);
            &&& (r matches Some(val) ==> is_canonical_dec(d) && dec_val(d) == val && val <= max)
            &&& (r is None ==> !(is_canonical_dec(d) && dec_val(d) <= max))
        }),
{
    let ghost d = v@.subrange(start as int, end as int);
    if start == end {
        return None;
    }
    if end - start > 1 && v[start] == '0' {
        proof {
            assert(d[0] == v@[start as int]);
        }
        return None;
    }
    let mut val: u32 = 0;
    let mut i = start;
    while i < end
        invariant
            start <= i <= end,
            val == dec_val(v@.subrange(start as int, i as int)),
            val <= max,
            forall|j: int| start <= j < i ==> is_digit_char(#[trigger] v@[j]),
        decreases end - i,
    {
        let c = v[i];
        if !is_digit_exec(c) {
            proof {
                assert(d[i - start] == v@[i as int]);
            }
            return None;
        }
        let dv = digit_value(c);
        proof {
            assert(v@.subrange(start as int, i + 1).drop_last() =~= v@.subrange(
                start as int,
                i as int,
            ));
            assert(v@.subrange(start as int, i + 1).last() == v@[i as int]);
        }
        val = val * 10 + dv;
        if val > max {
            proof {
                assert(d.take(i + 1 - start) =~= v@.subrange(start as int, i + 1));
                assert(d.take(end - start) =~= d);
                lemma_dec_val_take_mono(d, i + 1 - start, end - start);
            }
            return None;
        }
        i += 1;
    }
    proof {
        assert(v@.subrange(start as int, end as int) == d);
        assert forall|j: int| 0 <= j < d.len() implies is_digit_char(#[trigger] d[j]) by {
            assert(d[j] == v@[start + j]);
        }
        assert(d[0] == v@[start as int]);
    }
    Some(val)
}

/// The character ranges `rs` of `s`, as a sequence of segments.
pub open spec fn seg_views(s: Seq<char>, rs: Seq<(usize, usize)>) -> Seq<Seq<char>> {
    rs.map_values(|p: (usize, usize)| s.subrange(p.0 as int, p.1 as int))
}

/// Splits `v[start..end]` at its top-level commas. On success the returned
/// ranges are exactly the unique decomposition into valid segments; every
/// input without such a decomposition (unbalanced parentheses, or a leading,
/// trailing or empty segment) is rejected, and so is any input holding two
/// adjacent commas, at whatever parenthesis depth they stand.
#[verifier::loop_isolation(false)]
#[verifier::rlimit(100)]
pub(crate) fn split_segments(v: &Vec<char>, start: usize, end: usize) -> (r: Result<
    Vec<(usize, usize)>,
    AbiError,
>)
    requires
        start < end <= v@.len(),
    ensures
        ({
            let inner = v@.subrange(start as int, end as int);
            &&& (r matches Ok(segs) ==> {
                &&& forall|k: int|
                    0 <= k < segs@.len() ==> start <= (#[trigger] segs@[k]).0 && segs@[k].0
                        < segs@[k].1 <= end
                &&& is_segments(inner, seg_views(v@, segs@))
                &&& !has_double_comma(inner)
            })
            &&& (r is Err ==> (forall|segs: Seq<Seq<char>>| !is_segments(inner, segs))
                || has_double_comma(inner))
        }),
{
    let ghost inner = v@.subrange(start as int, end as int);
    // no two commas may stand next to each other, even inside parentheses
    let mut j: usize = start;
    while j + 1 < end
        invariant
            start <= j < end,
            forall|m: int|
                start <= m < j && m + 1 < end ==> !(#[trigger] v@[m] == ',' && v@[m + 1] == ','),
        decreases end - j,
    {
        if v[j] == ',' && v[j + 1] == ',' {
            proof {
                assert(inner[j - start] == v@[j as int]);
                assert(inner[j - start + 1] == v@[j + 1]);
                assert(has_double_comma(inner));
            }
            return Err(AbiError::Msg(String::from_str("no consecutive commas")));
        }
        j += 1;
    }
    proof {
        assert forall|i: int|
            0 <= i && i + 1 < inner.len() implies !(#[trigger] inner[i] == ',' && inner[i + 1]
            == ',') by {
            assert(inner[i] == v@[start + i] && inner[i + 1] == v@[start + i + 1]);
        }
        assert(!has_double_comma(inner));
    }
    let mut segs: Vec<(usize, usize)> = Vec::new();
    let mut seg_start: usize = start;
    let mut d: usize = 0;
    let mut i: usize = start;
    while i < end
        invariant
            start <= seg_start <= i <= end,
            d as int == pdepth(v@.subrange(start as int, i as int)),
            d <= i - start,
            pdepth(v@.subrange(start as int, seg_start as int)) == 0,
            forall|j: int| start <= j <= i ==> pdepth(#[trigger] v@.subrange(start as int, j)) >= 0,
            forall|j: int|
                seg_start <= j < i && #[trigger] v@[j] == ',' ==> pdepth(
                    v@.subrange(start as int, j),
                ) != 0,
            segs@.len() == 0 ==> seg_start == start,
            segs@.len() > 0 ==> seg_start > start && v@[seg_start - 1] == ',' && pdepth(
                v@.subrange(start as int, seg_start - 1),
            ) == 0,
            forall|k: int|
                0 <= k < segs@.len() ==> start <= (#[trigger] segs@[k]).0 && segs@[k].0 < segs@[k].1
                    && segs@[k].1 < seg_start,
            forall|k: int|
                0 <= k < segs@.len() ==> valid_segment(
                    v@.subrange((#[trigger] segs@[k]).0 as int, segs@[k].1 as int),
                ),
            segs@.len() > 0 ==> join_commas(seg_views(v@, segs@)) + seq![','] == v@.subrange(
                start as int,
                seg_start as int,
            ),
        decreases end - i,
    {
        let c = v[i];
        proof {
            assert(v@.subrange(start as int, i + 1).drop_last() =~= v@.subrange(
                start as int,
                i as int,
            ));
            assert(v@.subrange(start as int, i + 1).last() == v@[i as int]);
        }
        if c == '(' {
            d += 1;
        } else if c == ')' {
            if d == 0 {
                proof {
                    let p = i - start;
                    assert(inner.take(p + 1) =~= v@.subrange(start as int, i + 1));
                    assert(pdepth(inner.take(p + 1)) == -1);
                    assert forall|hs: Seq<Seq<char>>| !#[trigger] is_segments(inner, hs) by {
                        if is_segments(inner, hs) {
                            lemma_join_balanced(hs);
                            assert(pdepth(inner.take(p + 1)) >= 0);
                        }
                    }
                }
                return Err(AbiError::Msg(String::from_str("unpaired parentheses")));
            }
            d -= 1;
        } else if c == ',' {
            if d == 0 {
                if seg_start == i {
                    proof {
                        let p = i - start;
                        assert(inner.take(p) =~= v@.subrange(start as int, i as int));
                        assert(inner[p] == v@[i as int]);
                        assert forall|hs: Seq<Seq<char>>| !#[trigger] is_segments(inner, hs) by {
                            if is_segments(inner, hs) {
                                lemma_segments_commas(inner, hs);
                                if i == start {
                                    assert(inner[0] == ',' && pdepth(inner.take(0)) == 0);
                                } else {
                                    let q = seg_start - 1 - start;
                                    assert(inner.take(q) =~= v@.subrange(
                                        start as int,
                                        seg_start - 1,
                                    ));
                                    assert(inner[q] == v@[seg_start - 1]);
                                    assert(inner[q + 1] == v@[i as int]);
                                }
                            }
                        }
                    }
                    return Err(AbiError::Msg(String::from_str("no consecutive commas")));
                }
                proof {
                    let piece = v@.subrange(seg_start as int, i as int);
                    assert(v@.subrange(start as int, i as int) =~= v@.subrange(
                        start as int,
                        seg_start as int,
                    ) + piece);
                    lemma_pdepth_concat(v@.subrange(start as int, seg_start as int), piece);
                    assert(pdepth(piece) == 0);
                    assert forall|j: int|
                        0 <= j <= piece.len() implies pdepth(#[trigger] piece.take(j)) >= 0 by {
                        assert(v@.subrange(start as int, seg_start + j) =~= v@.subrange(
                            start as int,
                            seg_start as int,
                        ) + piece.take(j));
                        lemma_pdepth_concat(
                            v@.subrange(start as int, seg_start as int),
                            piece.take(j),
                        );
                        assert(pdepth(v@.subrange(start as int, seg_start + j)) >= 0);
                    }
                    assert forall|j: int|
                        0 <= j < piece.len() && #[trigger] piece[j] == ',' implies pdepth(
                        piece.take(j)) != 0 by {
                        assert(piece[j] == v@[seg_start + j]);
                        assert(v@.subrange(start as int, seg_start + j) =~= v@.subrange(
                            start as int,
                            seg_start as int,
                        ) + piece.take(j));
                        lemma_pdepth_concat(
                            v@.subrange(start as int, seg_start as int),
                            piece.take(j),
                        );
                        assert(pdepth(v@.subrange(start as int, seg_start + j)) != 0);
                    }
                    assert(valid_segment(piece));
                }
                let ghost old_segs = segs@;
                segs.push((seg_start, i));
                proof {
                    let piece = v@.subrange(seg_start as int, i as int);
                    let views_old = seg_views(v@, old_segs);
                    let views_new = seg_views(v@, segs@);
                    assert(views_new =~= views_old.push(piece));
                    if old_segs.len() == 0 {
                        assert(join_commas(views_new) == piece);
                        assert(join_commas(views_new) + seq![','] =~= v@.subrange(
                            start as int,
                            i + 1,
                        ));
                    } else {
                        assert(views_new.drop_last() =~= views_old);
                        assert(views_new.last() == piece);
                        assert(join_commas(views_new) == join_commas(views_old) + seq![','] + piece);
                        assert(join_commas(views_new) =~= v@.subrange(start as int, i as int));
                        assert(join_commas(views_new) + seq![','] =~= v@.subrange(
                            start as int,
                            i + 1,
                        ));
                    }
                }
                seg_start = i + 1;
            }
        }
        i += 1;
    }
    if d != 0 {
        proof {
            assert(pdepth(inner) != 0);
            assert forall|hs: Seq<Seq<char>>| !#[trigger] is_segments(inner, hs) by {
                if is_segments(inner, hs) {
                    lemma_join_balanced(hs);
                }
            }
        }
        return Err(AbiError::Msg(String::from_str("unpaired parentheses")));
    }
    if seg_start == end {
        proof {
            let p = end - 1 - start;
            assert(inner.take(p) =~= v@.subrange(start as int, end - 1));
            assert(inner[p] == v@[end - 1]);
            assert forall|hs: Seq<Seq<char>>| !#[trigger] is_segments(inner, hs) by {
                if is_segments(inner, hs) {
                    lemma_segments_commas(inner, hs);
                    assert(inner[p] == ',' && pdepth(inner.take(p)) == 0);
                    assert(p + 1 < inner.len());
                }
            }
        }
        return Err(AbiError::Msg(String::from_str("tuple content should not end with comma")));
    }
    proof {
        let piece = v@.subrange(seg_start as int, end as int);
        assert(v@.subrange(start as int, end as int) =~= v@.subrange(
            start as int,
            seg_start as int,
        ) + piece);
        lemma_pdepth_concat(v@.subrange(start as int, seg_start as int), piece);
        assert(pdepth(piece) == 0);
        assert forall|j: int|
            0 <= j <= piece.len() implies pdepth(#[trigger] piece.take(j)) >= 0 by {
            assert(v@.subrange(start as int, seg_start + j) =~= v@.subrange(
                start as int,
                seg_start as int,
            ) + piece.take(j));
            lemma_pdepth_concat(v@.subrange(start as int, seg_start as int), piece.take(j));
            assert(pdepth(v@.subrange(start as int, seg_start + j)) >= 0);
        }
        assert forall|j: int|
            0 <= j < piece.len() && #[trigger] piece[j] == ',' implies pdepth(piece.take(j))
            != 0 by {
            assert(piece[j] == v@[seg_start + j]);
            assert(v@.subrange(start as int, seg_start + j) =~= v@.subrange(
                start as int,
                seg_start as int,
            ) + piece.take(j));
            lemma_pdepth_concat(v@.subrange(start as int, seg_start as int), piece.take(j));
            assert(pdepth(v@.subrange(start as int, seg_start + j)) != 0);
        }
        assert(valid_segment(piece));
    }
    let ghost old_segs = segs@;
    segs.push((seg_start, end));
    proof {
        let piece = v@.subrange(seg_start as int, end as int);
        let views_old = seg_views(v@, old_segs);
        let views_new = seg_views(v@, segs@);
        assert(views_new =~= views_old.push(piece));
        if old_segs.len() == 0 {
            assert(join_commas(views_new) == piece);
            assert(join_commas(views_new) =~= inner);
        } else {
            assert(views_new.drop_last() =~= views_old);
            assert(views_new.last() == piece);
            assert(join_commas(views_new) == join_commas(views_old) + seq![','] + piece);
            assert(join_commas(views_new) =~= inner);
        }
        assert(is_segments(inner, views_new));
    }
    Ok(segs)
}

/// A format that starts with `ui` and does not end in `]` is a `uint`'s.
proof fn lemma_uint_pin(s: Seq<char>, t: AbiType)
    requires
        t.wf(),
        t.spec_format() == s,
        s.len() >= 4,
        s[0] == 'u',
        s[1] == 'i',
        s[s.len() - 1] != ']',
    ensures
        (t matches AbiType::Uint { bit_size } && {
            &&& s.skip(4) == dec_rep(bit_size as nat)
            &&& is_canonical_dec(s.skip(4))
            &&& dec_val(s.skip(4)) == bit_size as nat
            &&& valid_bit_size(bit_size as int)
        }),
{
    lemma_format_shape(t);
    lemma_format_class(t);
    assert(s != seq!['b', 'y', 't', 'e']) by {
        assert(s[0] == 'u');
    }
    assert(s != seq!['b', 'o', 'o', 'l']) by {
        assert(s[0] == 'u');
    }
    assert(s != seq!['a', 'd', 'd', 'r', 'e', 's', 's']) by {
        assert(s[0] == 'u');
    }
    assert(s != seq!['s', 't', 'r', 'i', 'n', 'g']) by {
        assert(s[0] == 'u');
    }
    assert(format_class(s) == UINT as int);
    match t {
        AbiType::Uint { bit_size } => {
            lemma_dec_rep_canonical(bit_size as nat);
        },
        _ => {
            assert(false);
        },
    }
}

/// A format that starts with `uf` and does not end in `]` is a `ufixed`'s.
proof fn lemma_ufixed_pin(s: Seq<char>, t: AbiType)
    requires
        t.wf(),
        t.spec_format() == s,
        s.len() >= 6,
        s[0] == 'u',
        s[1] == 'f',
        s[s.len() - 1] != ']',
    ensures
        (t matches AbiType::UFixed { bit_size, precision } && {
            let d1 = dec_rep(bit_size as nat);
            let d2 = dec_rep(precision as nat);
            &&& s.len() == 7 + d1.len() + d2.len()
            &&& (forall|j: int| 6 <= j < 6 + d1.len() ==> is_digit_char(#[trigger] s[j]))
            &&& s[6 + d1.len() as int] == 'x'
            &&& s.subrange(6, 6 + d1.len() as int) == d1
            &&& s.subrange(7 + d1.len() as int, s.len() as int) == d2
            &&& is_canonical_dec(d1) && dec_val(d1) == bit_size as nat
            &&& is_canonical_dec(d2) && dec_val(d2) == precision as nat
            &&& valid_bit_size(bit_size as int)
            &&& 1 <= precision <= 160
        }),
{
    lemma_format_shape(t);
    lemma_format_class(t);
    assert(s != seq!['b', 'y', 't', 'e']) by {
        assert(s[0] == 'u');
    }
    assert(s != seq!['b', 'o', 'o', 'l']) by {
        assert(s[0] == 'u');
    }
    assert(s != seq!['a', 'd', 'd', 'r', 'e', 's', 's']) by {
        assert(s[0] == 'u');
    }
    assert(s != seq!['s', 't', 'r', 'i', 'n', 'g']) by {
        assert(s[0] == 'u');
    }
    assert(format_class(s) == UFIXED as int);
    match t {
        AbiType::UFixed { bit_size, precision } => {
            lemma_dec_rep_canonical(bit_size as nat);
            lemma_dec_rep_canonical(precision as nat);
        },
        _ => {
            assert(false);
        },
    }
}

/// A format that ends in `]`, where `s[j]` is the last `[` and the character
/// before the final `]` is not `[`, is a static array's, cut at `j`.
proof fn lemma_static_pin(s: Seq<char>, t: AbiType, j: int)
    requires
        t.wf(),
        t.spec_format() == s,
        s.len() >= 2,
        s[s.len() - 1] == ']',
        s[s.len() - 2] != '[',
        0 <= j < s.len() - 1,
        s[j] == '[',
        forall|m: int| j < m < s.len() - 1 ==> s[m] != '[',
    ensures
        (t matches AbiType::ArrayStatic { elem, len } && {
            let d = dec_rep(len as nat);
            &&& (*elem).wf()
            &&& (*elem).spec_format() == s.take(j)
            &&& (*elem).spec_format().len() == j
            &&& s.subrange(j + 1, s.len() - 1) == d
            &&& is_canonical_dec(d) && dec_val(d) == len as nat
        }),
{
    lemma_format_shape(t);
    lemma_format_class(t);
    assert(format_class(s) == ARRAY_STATIC as int);
    match t {
        AbiType::ArrayStatic { elem, len } => {
            let fe = (*elem).spec_format();
            let fl = fe.len() as int;
            assert(s[fl] == '[');
            if fl < j {
                assert(s[j] != '[');
                assert(false);
            }
            if fl > j {
                assert(fl < s.len() - 1);
                assert(s[fl] != '[');
                assert(false);
            }
            lemma_dec_rep_canonical(len as nat);
        },
        _ => {
            assert(false);
        },
    }
}

/// A format that begins `(` and ends `)` with text between is a non-empty
/// tuple's, and the text between splits into its element formats.
proof fn lemma_tuple_pin(s: Seq<char>, t: AbiType)
    requires
        t.wf(),
        t.spec_format() == s,
        s.len() > 2,
        s[0] == '(',
        s[s.len() - 1] == ')',
    ensures
        (t matches AbiType::Tuple { children } && {
            &&& children@.len() > 0
            &&& children@.len() <= 65534
            &&& (forall|i: int| 0 <= i < children@.len() ==> (#[trigger] children@[i]).wf())
            &&& spec_format_seq(children@) == s.subrange(1, s.len() - 1)
            &&& is_segments(s.subrange(1, s.len() - 1), spec_formats_of(children@))
        }),
{
    lemma_format_shape(t);
    lemma_format_class(t);
    assert(format_class(s) == TUPLE as int);
    match t {
        AbiType::Tuple { children } => {
            let inner = s.subrange(1, s.len() - 1);
            assert(spec_format_seq(children@) == inner);
            if children@.len() == 0 {
                assert(inner.len() == 0);
                assert(false);
            }
            assert forall|i: int|
                0 <= i < children@.len() implies valid_segment(
                #[trigger] spec_formats_of(children@)[i]) by {
                assert(children[i].wf());
                lemma_format_shape(children@[i]);
                assert(spec_formats_of(children@)[i] == children@[i].spec_format());
            }
            lemma_format_seq_join(children@);
        },
        _ => {
            assert(false);
        },
    }
}

/// Parses a static-array type string: the text ends in `]` and the
/// character before the final `]` is not `[`.
#[verifier::loop_isolation(false)]
#[verifier::rlimit(100)]
fn parse_static_range(v: &Vec<char>, start: usize, end: usize) -> (r: Result<AbiType, AbiError>)
    requires
        start <= end <= v@.len(),
        end - start >= 1,
        v@[end - 1] == ']',
        end - start >= 2 ==> v@[end - 2] != '[',
    ensures
        ({
            let s = v@.subrange(start as int, end as int);
            &&& (r matches Ok(t) ==> t.wf() && t.spec_format() == s)
            &&& (r is Err ==> forall|t: AbiType| t.wf() ==> #[trigger] t.spec_format() != s)
        }),
    decreases end - start, 0int,
{
    let ghost s = v@.subrange(start as int, end as int);
    let n = end - start;
    proof {
        assert forall|q: int| 0 <= q < n implies s[q] == #[trigger] v@[start + q] by {}
    }
    // static array: locate the last '[' before the length digits
    let mut bracket: usize = 0;
    let mut found = false;
    let mut idx = start;
    while idx < end - 1
        invariant
            start <= idx <= end - 1,
            found ==> start <= bracket < idx && v@[bracket as int] == '[' && forall|m: int|
                bracket < m < idx ==> v@[m] != '[',
            !found ==> forall|m: int| start <= m < idx ==> v@[m] != '[',
        decreases end - 1 - idx,
    {
        if v[idx] == '[' {
            bracket = idx;
            found = true;
        }
        idx += 1;
    }
    if !found {
        proof {
            assert forall|t: AbiType| t.wf() implies #[trigger] t.spec_format() != s by {
                if t.spec_format() == s {
                    lemma_format_shape(t);
                    lemma_format_class(t);
                    assert(format_class(s) == ARRAY_STATIC as int);
                    match t {
                        AbiType::ArrayStatic { elem, len } => {
                            let fl = (*elem).spec_format().len() as int;
                            assert(s[fl] == '[');
                            assert(v@[start + fl] == '[');
                        },
                        _ => {
                            assert(false);
                        },
                    }
                }
            }
        }
        return Err(AbiError::Msg(String::from_str("ill formed array type")));
    }
    proof {
        if bracket == end - 2 {
            assert(v@[end - 2] == '[');
            assert(false);
        }
        assert forall|m: int| bracket - start < m < n - 1 implies s[m] != '[' by {
            assert(s[m] == v@[start + m]);
        }
    }
    match parse_dec(v, bracket + 1, end - 1, 65535) {
        None => {
            proof {
                assert forall|t: AbiType| t.wf() implies #[trigger] t.spec_format() != s by {
                    if t.spec_format() == s {
                        lemma_static_pin(s, t, bracket - start);
                        match t {
                            AbiType::ArrayStatic { elem, len } => {
                                assert(v@.subrange(bracket + 1, end - 1) =~= s.subrange(
                                    bracket - start + 1,
                                    n - 1,
                                ));
                            },
                            _ => {
                                assert(false);
                            },
                        }
                    }
                }
            }
            Err(AbiError::Msg(String::from_str("ill formed array length")))
        },
        Some(val) => {
            match parse_range(v, start, bracket) {
                Err(err) => {
                    proof {
                        assert forall|t: AbiType| t.wf() implies #[trigger] t.spec_format()
                            != s by {
                            if t.spec_format() == s {
                                lemma_static_pin(s, t, bracket - start);
                                match t {
                                    AbiType::ArrayStatic { elem, len } => {
                                        assert(v@.subrange(start as int, bracket as int)
                                            =~= s.take(bracket - start));
                                    },
                                    _ => {
                                        assert(false);
                                    },
                                }
                            }
                        }
                    }
                    Err(err)
                },
                Ok(e) => {
                    let r = make_static_array_type(e, val as u16);
                    proof {
                        let d = v@.subrange(bracket + 1, end - 1);
                        lemma_canonical_dec_rep(d);
                        assert(dec_rep(val as nat) == d);
                        assert(v@.subrange(start as int, bracket as int) =~= s.take(
                            bracket - start,
                        ));
                        assert(r.spec_format() =~= s);
                    }
                    Ok(r)
                },
            }
        },
    }
}

/// Parses a `ufixed` type string: the text begins with the keyword and does
/// not end in `]`.
#[verifier::loop_isolation(false)]
#[verifier::rlimit(100)]
fn parse_ufixed_range(v: &Vec<char>, start: usize, end: usize) -> (r: Result<AbiType, AbiError>)
    requires
        start <= end <= v@.len(),
        end - start >= 6,
        v@[start as int] == 'u',
        v@[start + 1] == 'f',
        v@[start + 2] == 'i',
        v@[start + 3] == 'x',
        v@[start + 4] == 'e',
        v@[start + 5] == 'd',
        v@[end - 1] != ']',
    ensures
        ({
            let s = v@.subrange(start as int, end as int);
            &&& (r matches Ok(t) ==> t.wf() && t.spec_format() == s)
            &&& (r is Err ==> forall|t: AbiType| t.wf() ==> #[trigger] t.spec_format() != s)
        }),
{
    let ghost s = v@.subrange(start as int, end as int);
    let n = end - start;
    proof {
        assert forall|q: int| 0 <= q < n implies s[q] == #[trigger] v@[start + q] by {}
    }
    // the bit size runs to the first 'x' after the keyword
    let mut k = start + 6;
    while k < end && v[k] != 'x'
        invariant
            start + 6 <= k <= end,
            forall|m: int| start + 6 <= m < k ==> v@[m] != 'x',
        decreases end - k,
    {
        k += 1;
    }
    if k == end {
        proof {
            assert forall|t: AbiType| t.wf() implies #[trigger] t.spec_format() != s by {
                if t.spec_format() == s {
                    lemma_ufixed_pin(s, t);
                    match t {
                        AbiType::UFixed { bit_size, precision } => {
                            let p = 6 + dec_rep(bit_size as nat).len() as int;
                            assert(s[p] == 'x');
                            assert(v@[start + p] == 'x');
                        },
                        _ => {
                            assert(false);
                        },
                    }
                }
            }
        }
        return Err(AbiError::Msg(String::from_str("ill formed ufixed type")));
    }
    let d1opt = parse_dec(v, start + 6, k, 512);
    let ghost rel_k = k - start;
    proof {
        assert forall|m: int| 6 <= m < rel_k implies s[m] != 'x' by {
            assert(s[m] == v@[start + m]);
        }
        assert(s[rel_k] == v@[k as int]);
    }
    match d1opt {
        Some(bits) => {
            if bits >= 8 && bits % 8 == 0 {
                let d2opt = parse_dec(v, k + 1, end, 160);
                match d2opt {
                    Some(prec) => {
                        if prec >= 1 {
                            proof {
                                let d1 = v@.subrange(start + 6, k as int);
                                let d2 = v@.subrange(k + 1, end as int);
                                lemma_canonical_dec_rep(d1);
                                lemma_canonical_dec_rep(d2);
                                assert(dec_rep(bits as nat) == d1);
                                assert(dec_rep(prec as nat) == d2);
                                assert((AbiType::UFixed {
                                    bit_size: bits as u16,
                                    precision: prec as u16,
                                }).spec_format() =~= s);
                            }
                            return Ok(
                                AbiType::UFixed {
                                    bit_size: bits as u16,
                                    precision: prec as u16,
                                },
                            );
                        }
                    },
                    None => {},
                }
                proof {
                    assert forall|t: AbiType| t.wf() implies #[trigger] t.spec_format()
                        != s by {
                        if t.spec_format() == s {
                            lemma_ufixed_pin(s, t);
                            match t {
                                AbiType::UFixed { bit_size, precision } => {
                                    let l1 = dec_rep(bit_size as nat).len() as int;
                                    if 6 + l1 < rel_k {
                                        assert(s[6 + l1] == 'x');
                                        assert(v@[start + 6 + l1] != 'x');
                                        assert(false);
                                    }
                                    if 6 + l1 > rel_k {
                                        assert(is_digit_char(s[rel_k]));
                                        assert(false);
                                    }
                                    assert(v@.subrange(start + 6, k as int) =~= s.subrange(
                                        6,
                                        6 + l1,
                                    ));
                                    assert(v@.subrange(k + 1, end as int) =~= s.subrange(
                                        7 + l1,
                                        n as int,
                                    ));
                                    match d2opt {
                                        Some(prec) => {
                                            assert(prec == precision as nat);
                                            assert(false);
                                        },
                                        None => {
                                            assert(false);
                                        },
                                    }
                                },
                                _ => {
                                    assert(false);
                                },
                            }
                        }
                    }
                }
                return Err(AbiError::Msg(String::from_str("ill formed ufixed precision")));
            }
        },
        None => {},
    }
    proof {
        assert forall|t: AbiType| t.wf() implies #[trigger] t.spec_format() != s by {
            if t.spec_format() == s {
                lemma_ufixed_pin(s, t);
                match t {
                    AbiType::UFixed { bit_size, precision } => {
                        let l1 = dec_rep(bit_size as nat).len() as int;
                        if 6 + l1 < rel_k {
                            assert(s[6 + l1] == 'x');
                            assert(v@[start + 6 + l1] != 'x');
                            assert(false);
                        }
                        if 6 + l1 > rel_k {
                            assert(is_digit_char(s[rel_k]));
                            assert(false);
                        }
                        assert(v@.subrange(start + 6, k as int) =~= s.subrange(6, 6 + l1));
                        match d1opt {
                            Some(bits) => {
                                assert(bits == bit_size as nat);
                                assert(false);
                            },
                            None => {
                                assert(false);
                            },
                        }
                    },
                    _ => {
                        assert(false);
                    },
                }
            }
        }
    }
    Err(AbiError::Msg(String::from_str("ill formed ufixed size")))
}

/// Parses a tuple type string: the text is wrapped in parentheses.
#[verifier::loop_isolation(false)]
#[verifier::rlimit(100)]
fn parse_tuple_range(v: &Vec<char>, start: usize, end: usize) -> (r: Result<AbiType, AbiError>)
    requires
        start <= end <= v@.len(),
        end - start >= 2,
        v@[start as int] == '(',
        v@[end - 1] == ')',
    ensures
        ({
            let s = v@.subrange(start as int, end as int);
            &&& (r matches Ok(t) ==> t.wf() && t.spec_format() == s)
            &&& (r is Err ==> forall|t: AbiType| t.wf() ==> #[trigger] t.spec_format() != s)
        }),
    decreases end - start, 0int,
{
    let ghost s = v@.subrange(start as int, end as int);
    let n = end - start;
    proof {
        assert forall|q: int| 0 <= q < n implies s[q] == #[trigger] v@[start + q] by {}
    }
    if n == 2 {
        let children: Vec<AbiType> = Vec::new();
        let r = AbiType::Tuple { children };
        proof {
            assert(spec_format_seq(Seq::<AbiType>::empty()) == Seq::<char>::empty());
            assert(r.spec_format() =~= s);
        }
        Ok(r)
    } else {
        let ghost inner = v@.subrange(start as int + 1, end - 1);
        proof {
            assert(inner =~= s.subrange(1, n - 1));
        }
        match split_segments(v, start + 1, end - 1) {
            Err(err) => {
                proof {
                    assert forall|t: AbiType| t.wf() implies #[trigger] t.spec_format()
                        != s by {
                        if t.spec_format() == s {
                            lemma_tuple_pin(s, t);
                            match t {
                                AbiType::Tuple { children } => {
                                    assert(is_segments(inner, spec_formats_of(children@)));
                                    lemma_format_no_double_comma(t);
                                    if has_double_comma(inner) {
                                        let q = choose|q: int|
                                            0 <= q && q + 1 < inner.len() && #[trigger] inner[q]
                                                == ',' && inner[q + 1] == ',';
                                        assert(s[q + 1] == inner[q] && s[q + 2] == inner[q + 1]);
                                        assert(has_double_comma(s));
                                        assert(false);
                                    }
                                },
                                _ => {
                                    assert(false);
                                },
                            }
                        }
                    }
                }
                Err(err)
            },
            Ok(segs) => {
                let m = segs.len();
                let ghost views = seg_views(v@, segs@);
                let mut children: Vec<AbiType> = Vec::new();
                for i in 0..m
                    invariant
                        m == segs@.len(),
                        children@.len() == i,
                        forall|q: int|
                            0 <= q < i ==> (#[trigger] children@[q]).wf()
                                && children@[q].spec_format() == views[q],
                {
                    let pr = segs[i];
                    match parse_range(v, pr.0, pr.1) {
                        Ok(t) => {
                            proof {
                                assert(views[i as int] == v@.subrange(
                                    pr.0 as int,
                                    pr.1 as int,
                                ));
                            }
                            children.push(t);
                        },
                        Err(err) => {
                            proof {
                                assert forall|t: AbiType| t.wf() implies #[trigger] t.spec_format()
                                    != s by {
                                    if t.spec_format() == s {
                                        lemma_tuple_pin(s, t);
                                        match t {
                                            AbiType::Tuple { children: cs } => {
                                                lemma_segments_unique(
                                                    inner,
                                                    spec_formats_of(cs@),
                                                    views,
                                                );
                                                assert(spec_formats_of(cs@)[i as int]
                                                    == views[i as int]);
                                                assert(cs@[i as int].wf());
                                                assert(cs@[i as int].spec_format()
                                                    == v@.subrange(pr.0 as int, pr.1 as int));
                                            },
                                            _ => {
                                                assert(false);
                                            },
                                        }
                                    }
                                }
                            }
                            return Err(err);
                        },
                    }
                }
                if m >= 65535 {
                    proof {
                        assert forall|t: AbiType| t.wf() implies #[trigger] t.spec_format()
                            != s by {
                            if t.spec_format() == s {
                                lemma_tuple_pin(s, t);
                                match t {
                                    AbiType::Tuple { children: cs } => {
                                        lemma_segments_unique(
                                            inner,
                                            spec_formats_of(cs@),
                                            views,
                                        );
                                        assert(cs@.len() == views.len());
                                    },
                                    _ => {
                                        assert(false);
                                    },
                                }
                            }
                        }
                    }
                    return Err(
                        AbiError::Msg(
                            String::from_str(
                                "tuple type child type number larger than maximum uint16 error",
                            ),
                        ),
                    );
                }
                let r = AbiType::Tuple { children };
                proof {
                    lemma_format_seq_join(children@);
                    assert(spec_formats_of(children@) =~= views);
                    assert(spec_format_seq(children@) == join_commas(views));
                    assert(r.spec_format() =~= s);
                    assert(r.wf());
                }
                Ok(r)
            },
        }
    }
}

/// Parses `v[start..end]` as a type string. The result is exactly the
/// well-formed type whose canonical format is that text; parsing fails
/// exactly when no such type exists.
#[verifier::loop_isolation(false)]
#[verifier::rlimit(100)]
pub(crate) fn parse_range(v: &Vec<char>, start: usize, end: usize) -> (r: Result<AbiType, AbiError>)
    requires
        start <= end <= v@.len(),
    ensures
        ({
            let s = v@.subrange(start as int, end as int);
            &&& (r matches Ok(t) ==> t.wf() && t.spec_format() == s)
            &&& (r is Err ==> forall|t: AbiType| t.wf() ==> #[trigger] t.spec_format() != s)
        }),
    decreases end - start, 1int,
{
    let ghost s = v@.subrange(start as int, end as int);
    let n = end - start;
    proof {
        assert forall|q: int| 0 <= q < n implies s[q] == #[trigger] v@[start + q] by {}
    }
    if n >= 2 && v[end - 2] == '[' && v[end - 1] == ']' {
        // dynamic array
        match parse_range(v, start, end - 2) {
            Ok(e) => {
                proof {
                    assert(v@.subrange(start as int, end - 2) =~= s.take(n - 2));
                }
                let r = make_dynamic_array_type(e);
                proof {
                    assert(r.spec_format() =~= s);
                }
                Ok(r)
            },
            Err(err) => {
                proof {
                    assert forall|t: AbiType| t.wf() implies #[trigger] t.spec_format() != s by {
                        if t.spec_format() == s {
                            lemma_format_shape(t);
                            lemma_format_class(t);
                            assert(format_class(s) == ARRAY_DYNAMIC as int);
                            match t {
                                AbiType::ArrayDynamic { elem } => {
                                    assert((*elem).spec_format() == s.take(n - 2));
                                    assert(v@.subrange(start as int, end - 2) =~= s.take(n - 2));
                                    assert((*elem).wf());
                                },
                                _ => {
                                    assert(false);
                                },
                            }
                        }
                    }
                }
                Err(err)
            },
        }
    } else if n >= 1 && v[end - 1] == ']' {
        parse_static_range(v, start, end)
    } else if n >= 4 && v[start] == 'u' && v[start + 1] == 'i' && v[start + 2] == 'n' && v[start
        + 3] == 't' {
        let dopt = parse_dec(v, start + 4, end, 512);
        match dopt {
            Some(val) => {
                if val >= 8 && val % 8 == 0 {
                    proof {
                        let d = v@.subrange(start + 4, end as int);
                        lemma_canonical_dec_rep(d);
                        assert(dec_rep(val as nat) == d);
                        assert((AbiType::Uint { bit_size: val as u16 }).spec_format() =~= s);
                    }
                    return Ok(AbiType::Uint { bit_size: val as u16 });
                }
            },
            None => {},
        }
        proof {
            assert forall|t: AbiType| t.wf() implies #[trigger] t.spec_format() != s by {
                if t.spec_format() == s {
                    lemma_uint_pin(s, t);
                    match t {
                        AbiType::Uint { bit_size } => {
                            assert(v@.subrange(start + 4, end as int) =~= s.skip(4));
                            match dopt {
                                Some(val) => {
                                    assert(val == bit_size as nat);
                                    assert(false);
                                },
                                None => {
                                    assert(false);
                                },
                            }
                        },
                        _ => {
                            assert(false);
                        },
                    }
                }
            }
        }
        Err(AbiError::Msg(String::from_str("ill formed uint type")))
    } else if n == 4 && v[start] == 'b' && v[start + 1] == 'y' && v[start + 2] == 't' && v[start
        + 3] == 'e' {
        proof {
            assert(s =~= seq!['b', 'y', 't', 'e']);
        }
        Ok(AbiType::Byte)
    } else if n >= 6 && v[start] == 'u' && v[start + 1] == 'f' && v[start + 2] == 'i' && v[start
        + 3] == 'x' && v[start + 4] == 'e' && v[start + 5] == 'd' {
        parse_ufixed_range(v, start, end)
    } else if n == 4 && v[start] == 'b' && v[start + 1] == 'o' && v[start + 2] == 'o' && v[start
        + 3] == 'l' {
        proof {
            assert(s =~= seq!['b', 'o', 'o', 'l']);
        }
        Ok(AbiType::Bool)
    } else if n == 7 && v[start] == 'a' && v[start + 1] == 'd' && v[start + 2] == 'd' && v[start
        + 3] == 'r' && v[start + 4] == 'e' && v[start + 5] == 's' && v[start + 6] == 's' {
        proof {
            assert(s =~= seq!['a', 'd', 'd', 'r', 'e', 's', 's']);
        }
        Ok(AbiType::Address)
    } else if n == 6 && v[start] == 's' && v[start + 1] == 't' && v[start + 2] == 'r' && v[start
        + 3] == 'i' && v[start + 4] == 'n' && v[start + 5] == 'g' {
        proof {
            assert(s =~= seq!['s', 't', 'r', 'i', 'n', 'g']);
        }
        Ok(AbiType::Str)
    } else if n >= 2 && v[start] == '(' && v[end - 1] == ')' {
        parse_tuple_range(v, start, end)
    } else {
        proof {
            assert forall|t: AbiType| t.wf() implies #[trigger] t.spec_format() != s by {
                if t.spec_format() == s {
                    lemma_format_shape(t);
                    match t {
                        AbiType::Uint { bit_size } => {
                            assert(v@[start as int] == 'u' && v@[start + 1] == 'i' && v@[start + 2]
                                == 'n' && v@[start + 3] == 't');
                            assert(false);
                        },
                        AbiType::Byte => {
                            assert(v@[start as int] == 'b' && v@[start + 1] == 'y' && v@[start + 2]
                                == 't' && v@[start + 3] == 'e');
                            assert(false);
                        },
                        AbiType::UFixed { bit_size, precision } => {
                            assert(v@[start as int] == 'u' && v@[start + 1] == 'f' && v@[start + 2]
                                == 'i' && v@[start + 3] == 'x' && v@[start + 4] == 'e' && v@[start
                                + 5] == 'd');
                            assert(false);
                        },
                        AbiType::Bool => {
                            assert(v@[start as int] == 'b' && v@[start + 1] == 'o' && v@[start + 2]
                                == 'o' && v@[start + 3] == 'l');
                            assert(false);
                        },
                        AbiType::ArrayStatic { elem, len } => {
                            assert(v@[end - 1] == ']');
                            assert(false);
                        },
                        AbiType::Address => {
                            assert(v@[start as int] == 'a' && v@[start + 1] == 'd' && v@[start + 2]
                                == 'd' && v@[start + 3] == 'r' && v@[start + 4] == 'e' && v@[start
                                + 5] == 's' && v@[start + 6] == 's');
                            assert(false);
                        },
                        AbiType::ArrayDynamic { elem } => {
                            assert(v@[end - 1] == ']');
                            assert(false);
                        },
                        AbiType::Str => {
                            assert(v@[start as int] == 's' && v@[start + 1] == 't' && v@[start + 2]
                                == 'r' && v@[start + 3] == 'i' && v@[start + 4] == 'n' && v@[start
                                + 5] == 'g');
                            assert(false);
                        },
                        AbiType::Tuple { children } => {
                            assert(v@[start as int] == '(' && v@[end - 1] == ')');
                            assert(false);
                        },
                    }
                }
            }
        }
        Err(AbiError::Msg(String::from_str("cannot convert string to ABI type")))
    }
}

impl AbiType {
    /// Parses an ABI type string, for example `(uint64,byte[])`.
    ///
    /// Succeeds exactly on the canonical string of a well-formed type, and
    /// then returns that type: together with [`AbiType::string`] this gives
    /// the round trip in both directions.
    pub fn from_string(s: &str) -> (r: Result<AbiType, AbiError>)
        ensures
            (r matches Ok(t) ==> t.wf() && t.spec_format() == s@),
            (r is Err ==> forall|t: AbiType| t.wf() ==> #[trigger] t.spec_format() != s@),
    {
        let v = str_to_chars(s);
        let n = v.len();
        let r = parse_range(&v, 0, n);
        proof {
            assert(v@.subrange(0, n as int) =~= s@);
        }
        r
    }
}

impl core::str::FromStr for AbiType {
    type Err = AbiError;

    /// Parses an ABI type string; see [`AbiType::from_string`].
    fn from_str(s: &str) -> Result<AbiType, AbiError> {
        AbiType::from_string(s)
    }
}

/// Copies the characters of `v[a..b]` into a fresh vector.
pub(crate) fn copy_range(v: &Vec<char>, a: usize, b: usize) -> (r: Vec<char>)
    requires
        a <= b <= v@.len(),
    ensures
        r@ == v@.subrange(a as int, b as int),
{
    let mut r: Vec<char> = Vec::new();
    let mut i = a;
    while i < b
        invariant
            a <= i <= b <= v@.len(),
            r@ == v@.subrange(a as int, i as int),
        decreases b - i,
    {
        r.push(v[i]);
        proof {
            assert(v@.subrange(a as int, i + 1).drop_last() =~= v@.subrange(a as int, i as int));
            assert(v@.subrange(a as int, i + 1).last() == v@[i as int]);
            assert(r@ =~= v@.subrange(a as int, i + 1));
        }
        i += 1;
    }
    r
}

/// Splits the content between a tuple's parentheses into its top-level
/// comma-separated sub-strings, one per element type of the tuple.
///
/// An empty input yields an empty list. Otherwise the result is the unique
/// decomposition of the input into non-empty balanced segments joined by
/// top-level commas; inputs with unpaired parentheses or a leading or
/// trailing comma are rejected, and so is any input holding two adjacent
/// commas, even inside parentheses.
#[verifier::loop_isolation(false)]
pub fn parse_tuple_content(s: &str) -> (r: Result<Vec<String>, AbiError>)
    ensures
        s@.len() == 0 ==> (r matches Ok(segs) && segs@.len() == 0),
        s@.len() > 0 ==> {
            &&& (r matches Ok(segs) ==> is_segments(s@, segs.deep_view()) && !has_double_comma(
                s@,
            ))
            &&& (r is Err ==> (forall|segs: Seq<Seq<char>>| !is_segments(s@, segs))
                || has_double_comma(s@))
        },
{
    let v = str_to_chars(s);
    let n = v.len();
    if n == 0 {
        return Ok(Vec::new());
    }
    match split_segments(&v, 0, n) {
        Err(err) => {
            proof {
                assert(v@.subrange(0, n as int) =~= s@);
            }
            Err(err)
        },
        Ok(segs) => {
            let m = segs.len();
            let ghost views = seg_views(v@, segs@);
            let mut out: Vec<String> = Vec::new();
            for i in 0..m
                invariant
                    m == segs@.len(),
                    out@.len() == i,
                    forall|q: int| 0 <= q < i ==> (#[trigger] out@[q])@ == views[q],
            {
                let pr = segs[i];
                let piece = copy_range(&v, pr.0, pr.1);
                out.push(chars_to_string(&piece));
            }
            proof {
                assert(v@.subrange(0, n as int) =~= s@);
                assert(out.deep_view() =~= views);
            }
            Ok(out)
        },
    }
}

/// Lists whose elements format pointwise the same, format the same.
pub proof fn lemma_format_seq_pointwise(ts1: Seq<AbiType>, ts2: Seq<AbiType>)
    requires
        ts1.len() == ts2.len(),
        forall|i: int|
            0 <= i < ts1.len() ==> (#[trigger] ts1[i]).spec_format() == ts2[i].spec_format(),
    ensures
        spec_format_seq(ts1) == spec_format_seq(ts2),
    decreases ts1.len(),
{
    if ts1.len() > 0 {
        let d1 = ts1.drop_last();
        let d2 = ts2.drop_last();
        assert(forall|i: int|
            0 <= i < d1.len() ==> (#[trigger] d1[i]).spec_format() == d2[i].spec_format()) by {
            assert(forall|i: int|
                0 <= i < d1.len() ==> d1[i] == ts1[i] && d2[i] == ts2[i]
                    && (#[trigger] ts1[i]).spec_format() == ts2[i].spec_format());
        }
        lemma_format_seq_pointwise(d1, d2);
        assert(ts1.last().spec_format() == ts2.last().spec_format());
    }
}

} // verus!
