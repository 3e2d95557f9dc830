//! Runtime module calls as values: how a call is laid out in bytes (function
//! index, then each argument, fixed-width or compact), how it is read back,
//! and the metadata that describes a module's functions.
use vstd::prelude::*;
use vstd::arithmetic::div_mod::{
    lemma_div_denominator, lemma_fundamental_div_mod, lemma_fundamental_div_mod_converse,
};

verus! {

/// The type of a function parameter.
#[derive(Clone, Copy, PartialEq, Eq, Structural, Debug)]
pub enum ArgType {
    U32,
    I32,
    Text,
}

/// A declared parameter; `compact` selects the compact integer layout, which
/// only an unsigned parameter may have.
#[derive(Clone, Debug)]
pub struct ParamDecl {
    pub name: String,
    pub ty: ArgType,
    pub compact: bool,
}

/// A declared module function: name, parameters (the origin excluded), and
/// documentation lines.
#[derive(Clone, Debug)]
pub struct FunctionDecl {
    pub name: String,
    pub params: Vec<ParamDecl>,
    pub docs: Vec<String>,
}

/// An argument value; text is held as its UTF-8 bytes.
#[derive(Clone, Debug, PartialEq, Eq)]
pub enum ArgValue {
    U32(u32),
    I32(i32),
    Text(Vec<u8>),
}

/// A call: the index of the module function and its arguments.
#[derive(Clone, Debug, PartialEq, Eq)]
pub struct Call {
    pub function: u8,
    pub args: Vec<ArgValue>,
}

/// Metadata of one parameter: its name and its type as shown to users.
#[derive(Clone, Debug, PartialEq, Eq)]
pub struct FunctionArgumentMetadata {
    pub name: String,
    pub ty: String,
}

/// Metadata of one module function.
#[derive(Clone, Debug, PartialEq, Eq)]
pub struct FunctionMetadata {
    pub name: String,
    pub arguments: Vec<FunctionArgumentMetadata>,
    pub documentation: Vec<String>,
}

/// Little-endian layout of `v < 2^32` in four bytes.
pub open spec fn le32(v: nat) -> Seq<u8> {
    seq![
        (v % 256) as u8,
        (v / 256 % 256) as u8,
        (v / 65536 % 256) as u8,
        (v / 16777216 % 256) as u8,
    ]
}

/// Little-endian layout of `v < 2^16` in two bytes.
pub open spec fn le16(v: nat) -> Seq<u8> {
    seq![(v % 256) as u8, (v / 256 % 256) as u8]
}

/// Compact layout of `v < 2^32`: the two low bits of the first byte give the
/// mode (one, two or four bytes holding `v` shifted left by two, or a byte
/// `3` followed by `v` in four bytes).
pub open spec fn compact(v: nat) -> Seq<u8> {
    if v < 64 {
        seq![(v * 4) as u8]
    } else if v < 16384 {
        le16(v * 4 + 1)
    } else if v < 1073741824 {
        le32(v * 4 + 2)
    } else {
        seq![3u8] + le32(v)
    }
}

/// The two's complement bits of `v` as an unsigned number.
pub open spec fn twos(v: i32) -> nat {
    if v < 0 {
        (v + 4294967296) as nat
    } else {
        v as nat
    }
}

/// Whether `a` is a value of the declared parameter `p`.
pub open spec fn arg_fits(p: ParamDecl, a: ArgValue) -> bool {
    match a {
        ArgValue::U32(_) => p.ty is U32,
        ArgValue::I32(_) => p.ty is I32 && !p.compact,
        ArgValue::Text(b) => p.ty is Text && !p.compact && b@.len() < 4294967296,
    }
}

/// The bytes of argument `a` of parameter `p`.
pub open spec fn arg_bytes(p: ParamDecl, a: ArgValue) -> Seq<u8> {
    match a {
        ArgValue::U32(v) => if p.compact {
            compact(v as nat)
        } else {
            le32(v as nat)
        },
        ArgValue::I32(v) => le32(twos(v)),
        ArgValue::Text(b) => compact(b@.len()) + b@,
    }
}

/// Whether `args` are values of the parameters `params`, one each.
pub open spec fn args_fit(params: Seq<ParamDecl>, args: Seq<ArgValue>) -> bool {
    params.len() == args.len() && forall|i: int| 0 <= i < args.len() ==> arg_fits(params[i], #[trigger] args[i])
}

/// The bytes of the arguments, one after the other.
pub open spec fn args_bytes(params: Seq<ParamDecl>, args: Seq<ArgValue>) -> Seq<u8>
    decreases args.len(),
{
    if args.len() == 0 || params.len() == 0 {
        Seq::empty()
    } else {
        args_bytes(params.drop_last(), args.drop_last()) + arg_bytes(params.last(), args.last())
    }
}

/// Whether `c` is a call of one of the functions `decls`, with fitting
/// arguments.
pub open spec fn call_fits(decls: Seq<FunctionDecl>, c: Call) -> bool {
    c.function < decls.len() && args_fit(decls[c.function as int].params@, c.args@)
}

/// The bytes of call `c`: the function index, then the arguments.
pub open spec fn call_bytes(decls: Seq<FunctionDecl>, c: Call) -> Seq<u8> {
    seq![c.function] + args_bytes(decls[c.function as int].params@, c.args@)
}

fn push_le32(out: &mut Vec<u8>, v: u32)
    ensures
        final(out)@ == old(out)@ + le32(v as nat),
{
    out.push((v % 256) as u8);
    out.push((v / 256 % 256) as u8);
    out.push((v / 65536 % 256) as u8);
    out.push((v / 16777216 % 256) as u8);
    assert(final(out)@ =~= old(out)@ + le32(v as nat));
}

/// Append the compact layout of `v`.
pub fn push_compact(out: &mut Vec<u8>, v: u32)
    ensures
        final(out)@ == old(out)@ + compact(v as nat),
{
    if v < 64 {
        out.push((v * 4) as u8);
        assert(final(out)@ =~= old(out)@ + compact(v as nat));
    } else if v < 16384 {
        let w: u32 = v * 4 + 1;
        out.push((w % 256) as u8);
        out.push((w / 256 % 256) as u8);
        assert(final(out)@ =~= old(out)@ + compact(v as nat));
    } else if v < 1073741824 {
        push_le32(out, v * 4 + 2);
    } else {
        out.push(3u8);
        push_le32(out, v);
        assert(final(out)@ =~= old(out)@ + compact(v as nat));
    }
}

fn push_arg(out: &mut Vec<u8>, p: &ParamDecl, a: &ArgValue)
    requires
        arg_fits(*p, *a),
    ensures
        final(out)@ == old(out)@ + arg_bytes(*p, *a),
{
    match a {
        ArgValue::U32(v) => {
            if p.compact {
                push_compact(out, *v);
            } else {
                push_le32(out, *v);
            }
        },
        ArgValue::I32(v) => {
            let u: u32 = if *v < 0 {
                (*v as i64 + 4294967296i64) as u32
            } else {
                *v as u32
            };
            push_le32(out, u);
        },
        ArgValue::Text(b) => {
            push_compact(out, b.len() as u32);
            let ghost start = out@;
            let mut i: usize = 0;
            while i < b.len()
                invariant
                    i <= b@.len(),
                    out@ == start + b@.take(i as int),
                decreases b@.len() - i,
            {
                out.push(b[i]);
                assert(b@.take(i + 1) =~= b@.take(i as int).push(b@[i as int]));
                i = i + 1;
            }
            assert(b@.take(i as int) =~= b@);
            assert(final(out)@ =~= old(out)@ + arg_bytes(*p, *a));
        },
    }
}

/// The bytes of call `c` of one of the functions `decls`.
pub fn encode_call(decls: &Vec<FunctionDecl>, c: &Call) -> (r: Vec<u8>)
    requires
        call_fits(decls@, *c),
    ensures
        r@ == call_bytes(decls@, *c),
{
    let params = &decls[c.function as usize].params;
    let mut out: Vec<u8> = Vec::new();
    out.push(c.function);
    let mut i: usize = 0;
    while i < c.args.len()
        invariant
            args_fit(params@, c.args@),
            i <= c.args@.len(),
            out@ == seq![c.function] + args_bytes(params@.take(i as int), c.args@.take(i as int)),
        decreases c.args@.len() - i,
    {
        proof {
            assert(params@.take(i + 1).drop_last() =~= params@.take(i as int));
            assert(c.args@.take(i + 1).drop_last() =~= c.args@.take(i as int));
            assert(arg_fits(params@[i as int], c.args@[i as int]));
        }
        push_arg(&mut out, &params[i], &c.args[i]);
        proof {
            assert(out@ =~= seq![c.function] + args_bytes(params@.take(i + 1), c.args@.take(i + 1)));
        }
        i = i + 1;
    }
    assert(params@.take(i as int) =~= params@);
    assert(c.args@.take(i as int) =~= c.args@);
    out
}

/// How a parameter type is named in metadata.
pub open spec fn param_type_name(t: ArgType) -> Seq<char> {
    match t {
        ArgType::U32 => "u32"@,
        ArgType::I32 => "i32"@,
        ArgType::Text => "String"@,
    }
}

/// How a parameter's type is shown: compact ones as `Compact<T>`.
pub open spec fn shown_type(p: ParamDecl) -> Seq<char> {
    if p.compact {
        "Compact<"@ + param_type_name(p.ty) + ">"@
    } else {
        param_type_name(p.ty)
    }
}

/// Whether `m` is the metadata of function `d`.
pub open spec fn describes(m: FunctionMetadata, d: FunctionDecl) -> bool {
    &&& m.name@ == d.name@
    &&& m.arguments@.len() == d.params@.len()
    &&& forall|j: int|
        0 <= j < m.arguments@.len() ==> (#[trigger] m.arguments@[j]).name@ == d.params@[j].name@
            && m.arguments@[j].ty@ == shown_type(d.params@[j])
    &&& crate::protocol::names_view(m.documentation@) == crate::protocol::names_view(d.docs@)
}

fn type_label(p: &ParamDecl) -> (r: String)
    ensures
        r@ == shown_type(*p),
{
    let base = match p.ty {
        ArgType::U32 => "u32",
        ArgType::I32 => "i32",
        ArgType::Text => "String",
    };
    if p.compact {
        let mut r = String::from_str("Compact<");
        r.append(base);
        r.append(">");
        r
    } else {
        String::from_str(base)
    }
}

fn copy_strings(v: &Vec<String>) -> (r: Vec<String>)
    ensures
        crate::protocol::names_view(r@) == crate::protocol::names_view(v@),
{
    let mut r: Vec<String> = Vec::new();
    let mut i: usize = 0;
    while i < v.len()
        invariant
            i <= v@.len(),
            crate::protocol::names_view(r@) == crate::protocol::names_view(v@.take(i as int)),
        decreases v@.len() - i,
    {
        let ghost before = r@;
        r.push(v[i].clone());
        assert(crate::protocol::names_view(r@) =~= crate::protocol::names_view(before).push(v@[i as int]@));
        assert(crate::protocol::names_view(v@.take(i + 1)) =~= crate::protocol::names_view(
            v@.take(i as int),
        ).push(v@[i as int]@));
        i = i + 1;
    }
    assert(v@.take(i as int) =~= v@);
    r
}

fn function_metadata(d: &FunctionDecl) -> (r: FunctionMetadata)
    ensures
        describes(r, *d),
{
    let mut arguments: Vec<FunctionArgumentMetadata> = Vec::new();
    let mut j: usize = 0;
    while j < d.params.len()
        invariant
            j <= d.params@.len(),
            arguments@.len() == j,
            forall|a: int|
                0 <= a < j ==> (#[trigger] arguments@[a]).name@ == d.params@[a].name@ && arguments@[a].ty@
                    == shown_type(d.params@[a]),
        decreases d.params@.len() - j,
    {
        let p = &d.params[j];
        arguments.push(FunctionArgumentMetadata { name: p.name.clone(), ty: type_label(p) });
        j = j + 1;
    }
    FunctionMetadata { name: d.name.clone(), arguments, documentation: copy_strings(&d.docs) }
}

/// The metadata of the functions `decls`, in order.
pub fn call_functions(decls: &Vec<FunctionDecl>) -> (r: Vec<FunctionMetadata>)
    ensures
        r@.len() == decls@.len(),
        forall|i: int| 0 <= i < r@.len() ==> describes(#[trigger] r@[i], decls@[i]),
{
    let mut r: Vec<FunctionMetadata> = Vec::new();
    let mut i: usize = 0;
    while i < decls.len()
        invariant
            i <= decls@.len(),
            r@.len() == i,
            forall|a: int| 0 <= a < i ==> describes(#[trigger] r@[a], decls@[a]),
        decreases decls@.len() - i,
    {
        r.push(function_metadata(&decls[i]));
        i = i + 1;
    }
    r
}

proof fn lemma_le32(b0: u8, b1: u8, b2: u8, b3: u8)
    ensures
        le32((b0 + 256 * b1 + 65536 * b2 + 16777216 * b3) as nat) == seq![b0, b1, b2, b3],
{
    let v: int = b0 + 256 * b1 + 65536 * b2 + 16777216 * b3;
    let q2: int = b2 + 256 * b3;
    let q1: int = b1 + 256 * q2;
    lemma_fundamental_div_mod_converse(v, 256, q1, b0 as int);
    lemma_fundamental_div_mod_converse(q1, 256, q2, b1 as int);
    lemma_fundamental_div_mod_converse(v, 65536, q2, b0 + 256 * b1);
    lemma_fundamental_div_mod_converse(q2, 256, b3 as int, b2 as int);
    lemma_fundamental_div_mod_converse(v, 16777216, b3 as int, b0 + 256 * b1 + 65536 * b2);
    lemma_fundamental_div_mod_converse(b3 as int, 256, 0, b3 as int);
    assert(le32(v as nat) =~= seq![b0, b1, b2, b3]);
}

proof fn lemma_le16(b0: u8, b1: u8)
    ensures
        le16((b0 + 256 * b1) as nat) == seq![b0, b1],
{
    let v: int = b0 + 256 * b1;
    lemma_fundamental_div_mod_converse(v, 256, b1 as int, b0 as int);
    lemma_fundamental_div_mod_converse(b1 as int, 256, 0, b1 as int);
    assert(le16(v as nat) =~= seq![b0, b1]);
}

proof fn lemma_le32_inverse(x: nat)
    requires
        x < 4294967296,
    ensures
        x == le32(x)[0] + 256 * le32(x)[1] + 65536 * le32(x)[2] + 16777216 * le32(x)[3],
{
    let q1 = x as int / 256;
    let q2 = x as int / 65536;
    let q3 = x as int / 16777216;
    lemma_fundamental_div_mod(x as int, 256);
    lemma_fundamental_div_mod(q1, 256);
    lemma_fundamental_div_mod(q2, 256);
    lemma_div_denominator(x as int, 256, 256);
    lemma_div_denominator(x as int, 65536, 256);
    assert(q1 / 256 == q2);
    assert(q2 / 256 == q3);
    assert(q3 < 256) by {
        lemma_fundamental_div_mod(x as int, 16777216);
    }
    lemma_fundamental_div_mod_converse(q3, 256, 0, q3);
    assert(le32(x)[0] == x % 256);
    assert(le32(x)[1] == q1 % 256);
    assert(le32(x)[2] == q2 % 256);
    assert(le32(x)[3] == q3 % 256);
}

proof fn lemma_le16_inverse(x: nat)
    requires
        x < 65536,
    ensures
        x == le16(x)[0] + 256 * le16(x)[1],
{
    let q1 = x as int / 256;
    lemma_fundamental_div_mod(x as int, 256);
    assert(q1 < 256) by {
        lemma_fundamental_div_mod(x as int, 256);
    }
    lemma_fundamental_div_mod_converse(q1, 256, 0, q1);
}

fn read_le32(b: &Vec<u8>, pos: usize) -> (r: u32)
    requires
        pos + 4 <= b@.len(),
    ensures
        le32(r as nat) == b@.subrange(pos as int, pos + 4),
        r == b@[pos as int] + 256 * b@[pos + 1] + 65536 * b@[pos + 2] + 16777216 * b@[pos + 3],
{
    let len = b.len();
    let x0: u64 = b[pos] as u64;
    let x1: u64 = b[pos + 1] as u64;
    let x2: u64 = b[pos + 2] as u64;
    let x3: u64 = b[pos + 3] as u64;
    assert(x0 < 256 && x1 < 256 && x2 < 256 && x3 < 256);
    assert(256 * x1 <= 65280 && 65536 * x2 <= 16711680 && 16777216 * x3 <= 4278190080) by (nonlinear_arith)
        requires
            x1 < 256 && x2 < 256 && x3 < 256,
    ;
    let w: u64 = x0 + 256 * x1 + 65536 * x2 + 16777216 * x3;
    let v = w as u32;
    proof {
        lemma_le32(b@[pos as int], b@[pos + 1], b@[pos + 2], b@[pos + 3]);
        assert(b@.subrange(pos as int, pos + 4) =~= seq![b@[pos as int], b@[pos + 1], b@[pos + 2], b@[pos + 3]]);
    }
    v
}

/// The shape of the compact layout of `v`: its length, the mode in the low
/// bits of the first byte, and the number its bytes spell.
proof fn lemma_compact_shape(v: nat)
    requires
        v < 4294967296,
    ensures
        v < 64 ==> compact(v).len() == 1 && compact(v)[0] % 4 == 0 && compact(v)[0] / 4 == v,
        64 <= v < 16384 ==> compact(v).len() == 2 && compact(v)[0] % 4 == 1 && compact(v)[0] + 256
            * compact(v)[1] == v * 4 + 1,
        16384 <= v < 1073741824 ==> compact(v).len() == 4 && compact(v)[0] % 4 == 2 && compact(v)[0]
            + 256 * compact(v)[1] + 65536 * compact(v)[2] + 16777216 * compact(v)[3] == v * 4 + 2,
        1073741824 <= v ==> compact(v).len() == 5 && compact(v)[0] == 3 && compact(v)[1] + 256
            * compact(v)[2] + 65536 * compact(v)[3] + 16777216 * compact(v)[4] == v,
{
    if v < 64 {
        lemma_fundamental_div_mod_converse((v * 4) as int, 4, v as int, 0);
    } else if v < 16384 {
        lemma_le16_inverse(v * 4 + 1);
        let c0 = compact(v)[0] as int;
        let c1 = compact(v)[1] as int;
        lemma_fundamental_div_mod_converse(c0, 4, v - 64 * c1, 1);
    } else if v < 1073741824 {
        lemma_le32_inverse(v * 4 + 2);
        let c = compact(v);
        lemma_fundamental_div_mod_converse(
            c[0] as int,
            4,
            v - 64 * c[1] - 16384 * c[2] - 4194304 * c[3],
            2,
        );
    } else {
        lemma_le32_inverse(v);
    }
}

/// Read a compact integer at `pos`, if a canonical one stands there: the
/// value and the number of bytes it takes.
pub fn decode_compact(b: &Vec<u8>, pos: usize) -> (r: Option<(u32, usize)>)
    ensures
        r is Some ==> {
            let (v, n) = r.unwrap();
            &&& pos + n <= b@.len()
            &&& b@.subrange(pos as int, pos + n) == compact(v as nat)
        },
        forall|v: u32|
            pos + compact(v as nat).len() <= b@.len() && #[trigger] compact(v as nat) == b@.subrange(
                pos as int,
                pos + compact(v as nat).len(),
            ) ==> r == Some((v, compact(v as nat).len() as usize)),
{
    let len = b.len();
    let r: Option<(u32, usize)> = if pos >= len {
        None
    } else {
        let b0 = b[pos];
        let mode = b0 % 4;
        if mode == 0 {
            assert(b@.subrange(pos as int, pos + 1) =~= seq![b0]);
            Some(((b0 / 4) as u32, 1))
        } else if mode == 1 {
            if len - pos < 2 {
                None
            } else {
                let w: u32 = b0 as u32 + 256 * (b[pos + 1] as u32);
                let v = w / 4;
                if v < 64 {
                    None
                } else {
                    proof {
                        lemma_le16(b0, b@[pos + 1]);
                        assert(b@.subrange(pos as int, pos + 2) =~= seq![b0, b@[pos + 1]]);
                        assert(v * 4 + 1 == w);
                    }
                    Some((v, 2))
                }
            }
        } else if mode == 2 {
            if len - pos < 4 {
                None
            } else {
                let w = read_le32(b, pos);
                let v = w / 4;
                if v < 16384 {
                    None
                } else {
                    proof {
                        lemma_fundamental_div_mod_converse(
                            w as int,
                            4,
                            (w as int - b0 as int) / 4 + b0 as int / 4,
                            (b0 % 4) as int,
                        );
                        assert(v * 4 + 2 == w);
                    }
                    Some((v, 4))
                }
            }
        } else {
            if b0 != 3 || len - pos < 5 {
                None
            } else {
                let v = read_le32(b, pos + 1);
                if v < 1073741824 {
                    None
                } else {
                    assert(b@.subrange(pos as int, pos + 5) =~= seq![3u8] + b@.subrange(pos + 1, pos + 5));
                    Some((v, 5))
                }
            }
        }
    };
    proof {
        assert forall|v: u32|
            pos + compact(v as nat).len() <= b@.len() && #[trigger] compact(v as nat) == b@.subrange(
                pos as int,
                pos + compact(v as nat).len(),
            ) implies r == Some((v, compact(v as nat).len() as usize)) by {
            lemma_compact_shape(v as nat);
            let c = compact(v as nat);
            assert forall|j: int| 0 <= j < c.len() implies #[trigger] c[j] == b@[pos + j] by {
                assert(b@.subrange(pos as int, pos + c.len())[j] == b@[pos + j]);
            }
            if c.len() == 1 {
                assert(c[0] == b@[pos as int]);
            } else if c.len() == 2 {
                assert(c[0] == b@[pos as int] && c[1] == b@[pos + 1]);
            } else if c.len() == 4 {
                assert(c[0] == b@[pos as int] && c[1] == b@[pos + 1] && c[2] == b@[pos + 2] && c[3]
                    == b@[pos + 3]);
            } else {
                assert(c[0] == b@[pos as int] && c[1] == b@[pos + 1] && c[2] == b@[pos + 2] && c[3]
                    == b@[pos + 3] && c[4] == b@[pos + 4]);
            }
        }
    }
    r
}

/// Read an argument of parameter `p` at `pos`: the value and the number of
/// bytes it takes.
fn decode_arg(p: &ParamDecl, b: &Vec<u8>, pos: usize) -> (r: Option<(ArgValue, usize)>)
    ensures
        r is Some ==> {
            let (a, n) = r.unwrap();
            &&& pos + n <= b@.len()
            &&& arg_fits(*p, a)
            &&& b@.subrange(pos as int, pos + n) == arg_bytes(*p, a)
        },
        forall|a: ArgValue|
            arg_fits(*p, a) && pos + arg_bytes(*p, a).len() <= b@.len() && #[trigger] arg_bytes(*p, a)
                == b@.subrange(pos as int, pos + arg_bytes(*p, a).len()) ==> r is Some && r.unwrap().1
                == arg_bytes(*p, a).len(),
{
    let len = b.len();
    let r: Option<(ArgValue, usize)> = if pos > len {
        None
    } else {
        match p.ty {
            ArgType::U32 => {
                if p.compact {
                    match decode_compact(b, pos) {
                        Some((v, n)) => Some((ArgValue::U32(v), n)),
                        None => None,
                    }
                } else if len - pos < 4 {
                    None
                } else {
                    let v = read_le32(b, pos);
                    Some((ArgValue::U32(v), 4))
                }
            },
            ArgType::I32 => {
                if p.compact || len - pos < 4 {
                    None
                } else {
                    let u = read_le32(b, pos);
                    let v: i32 = if u >= 2147483648 {
                        (u as i64 - 4294967296i64) as i32
                    } else {
                        u as i32
                    };
                    assert(twos(v) == u);
                    Some((ArgValue::I32(v), 4))
                }
            },
            ArgType::Text => {
                if p.compact {
                    None
                } else {
                    match decode_compact(b, pos) {
                        None => None,
                        Some((n, k)) => {
                            let start = pos + k;
                            if len - start < n as usize {
                                None
                            } else {
                                let end = start + n as usize;
                                let mut out: Vec<u8> = Vec::new();
                                let mut i: usize = start;
                                while i < end
                                    invariant
                                        start <= i <= end <= b@.len(),
                                        out@ == b@.subrange(start as int, i as int),
                                    decreases end - i,
                                {
                                    out.push(b[i]);
                                    assert(b@.subrange(start as int, i + 1) =~= b@.subrange(
                                        start as int,
                                        i as int,
                                    ).push(b@[i as int]));
                                    i = i + 1;
                                }
                                assert(b@.subrange(pos as int, end as int) =~= b@.subrange(
                                    pos as int,
                                    start as int,
                                ) + b@.subrange(start as int, end as int));
                                Some((ArgValue::Text(out), end - pos))
                            }
                        },
                    }
                }
            },
        }
    };
    proof {
        assert forall|a: ArgValue|
            arg_fits(*p, a) && pos + arg_bytes(*p, a).len() <= b@.len() && #[trigger] arg_bytes(*p, a)
                == b@.subrange(pos as int, pos + arg_bytes(*p, a).len()) implies r is Some
            && r.unwrap().1 == arg_bytes(*p, a).len() by {
            if let ArgValue::Text(t) = a {
                let c = compact(t@.len());
                assert(b@.subrange(pos as int, pos + c.len()) =~= arg_bytes(*p, a).subrange(
                    0,
                    c.len() as int,
                ));
                assert(arg_bytes(*p, a).subrange(0, c.len() as int) =~= c);
            }
        }
    }
    r
}

/// The layout of the first `i` arguments is a prefix of the layout of all.
proof fn lemma_args_prefix(params: Seq<ParamDecl>, args: Seq<ArgValue>, i: int)
    requires
        params.len() == args.len(),
        0 <= i <= args.len(),
    ensures
        args_bytes(params.take(i), args.take(i)).len() <= args_bytes(params, args).len(),
        args_bytes(params, args).subrange(0, args_bytes(params.take(i), args.take(i)).len() as int)
            == args_bytes(params.take(i), args.take(i)),
    decreases args.len(),
{
    if i == args.len() {
        assert(params.take(i) =~= params);
        assert(args.take(i) =~= args);
        assert(args_bytes(params, args).subrange(0, args_bytes(params, args).len() as int)
            =~= args_bytes(params, args));
    } else {
        lemma_args_prefix(params.drop_last(), args.drop_last(), i);
        assert(params.drop_last().take(i) =~= params.take(i));
        assert(args.drop_last().take(i) =~= args.take(i));
        let x = args_bytes(params.take(i), args.take(i));
        let d = args_bytes(params.drop_last(), args.drop_last());
        assert(args_bytes(params, args) == d + arg_bytes(params.last(), args.last()));
        assert((d + arg_bytes(params.last(), args.last())).subrange(0, x.len() as int) =~= d.subrange(
            0,
            x.len() as int,
        ));
    }
}

/// Where the layout of a call's arguments stands in its bytes `b`, the
/// layout of argument `i` follows that of the arguments before it.
proof fn lemma_next_arg(
    params: Seq<ParamDecl>,
    wa: Seq<ArgValue>,
    b: Seq<u8>,
    function: u8,
    i: int,
    pos: int,
)
    requires
        args_fit(params, wa),
        b == seq![function] + args_bytes(params, wa),
        0 <= i < params.len(),
        pos == 1 + args_bytes(params.take(i), wa.take(i)).len(),
    ensures
        arg_fits(params[i], wa[i]),
        pos + arg_bytes(params[i], wa[i]).len() <= b.len(),
        arg_bytes(params[i], wa[i]) == b.subrange(pos, pos + arg_bytes(params[i], wa[i]).len()),
        pos + arg_bytes(params[i], wa[i]).len() == 1 + args_bytes(params.take(i + 1), wa.take(i + 1)).len(),
{
    lemma_args_prefix(params, wa, i + 1);
    assert(params.take(i + 1).drop_last() =~= params.take(i));
    assert(wa.take(i + 1).drop_last() =~= wa.take(i));
    assert(params.take(i + 1).last() == params[i]);
    assert(wa.take(i + 1).last() == wa[i]);
    let x = args_bytes(params.take(i), wa.take(i));
    let y = arg_bytes(params[i], wa[i]);
    let all = args_bytes(params, wa);
    assert(args_bytes(params.take(i + 1), wa.take(i + 1)) == x + y);
    assert(all.subrange(0, (x.len() + y.len()) as int) == x + y);
    assert(b.subrange(pos, pos + y.len()) =~= (x + y).subrange(x.len() as int, (x.len() + y.len()) as int));
}

/// Read back a call of one of the functions `decls` from `b`. Only the
/// exact layout of a call is accepted: whatever is returned has exactly the
/// bytes `b`.
pub fn decode_call(decls: &Vec<FunctionDecl>, b: &Vec<u8>) -> (r: Option<Call>)
    ensures
        r is Some ==> call_fits(decls@, r.unwrap()) && call_bytes(decls@, r.unwrap()) == b@,
        (exists|c: Call| call_fits(decls@, c) && #[trigger] call_bytes(decls@, c) == b@) ==> r is Some,
{
    let ghost has = exists|c: Call| call_fits(decls@, c) && #[trigger] call_bytes(decls@, c) == b@;
    let ghost w = choose|c: Call| call_fits(decls@, c) && #[trigger] call_bytes(decls@, c) == b@;
    let len = b.len();
    if len == 0 {
        return None;
    }
    let function = b[0];
    proof {
        if has {
            assert(b@[0] == call_bytes(decls@, w)[0]);
        }
    }
    if function as usize >= decls.len() {
        return None;
    }
    let params = &decls[function as usize].params;
    proof {
        if has {
            assert(b@[0] == call_bytes(decls@, w)[0]);
        }
    }
    let mut args: Vec<ArgValue> = Vec::new();
    let mut pos: usize = 1;
    let mut i: usize = 0;
    while i < params.len()
        invariant
            len == b@.len(),
            1 <= pos <= b@.len(),
            i <= params@.len(),
            args@.len() == i,
            forall|j: int| 0 <= j < i ==> arg_fits(params@[j], #[trigger] args@[j]),
            b@.subrange(1, pos as int) == args_bytes(params@.take(i as int), args@),
            has == exists|c: Call| call_fits(decls@, c) && #[trigger] call_bytes(decls@, c) == b@,
            has ==> call_fits(decls@, w) && call_bytes(decls@, w) == b@ && w.function == function,
            has ==> pos == 1 + args_bytes(params@.take(i as int), w.args@.take(i as int)).len(),
            function < decls@.len(),
            *params == decls@[function as int].params,
        decreases params@.len() - i,
    {
        proof {
            if has {
                assert(args_fit(params@, w.args@));
                assert(b@ == seq![function] + args_bytes(params@, w.args@));
                lemma_next_arg(params@, w.args@, b@, function, i as int, pos as int);
            }
        }
        let p = &params[i];
        assert(*p == params@[i as int]);
        let (a, n) = match decode_arg(p, b, pos) {
            Some(x) => x,
            None => {
                proof {
                    if has {
                        let wa = w.args@[i as int];
                        assert(arg_fits(*p, wa));
                        assert(arg_bytes(*p, wa) == b@.subrange(pos as int, pos + arg_bytes(*p, wa).len()));
                    }
                }
                return None;
            },
        };
        let ghost before = args@;
        args.push(a);
        proof {
            assert(params@.take(i + 1).drop_last() =~= params@.take(i as int));
            assert(args@.drop_last() =~= before);
            assert(b@.subrange(1, pos + n) =~= b@.subrange(1, pos as int) + b@.subrange(
                pos as int,
                pos + n,
            ));
        }
        pos = pos + n;
        i = i + 1;
    }
    proof {
        if has {
            assert(params@.take(i as int) =~= params@);
            assert(w.args@.take(i as int) =~= w.args@);
        }
    }
    if pos != len {
        return None;
    }
    let c = Call { function, args };
    assert(params@.take(i as int) =~= params@);
    assert(b@ =~= seq![function] + b@.subrange(1, pos as int));
    Some(c)
}

} // verus!
