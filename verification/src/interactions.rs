//! The method-signature codec: `Method`, `Arg` and `Return` records, the
//! `name(args)return` parser and formatter, and the selector and
//! transaction-count derivations.
use crate::abi_type::is_type_str;
use crate::abi_type::AbiType;
use crate::error::AbiError;
use crate::grammar::has_double_comma;
use crate::grammar::is_segments;
use crate::grammar::join_commas;
use crate::grammar::pdepth;
use crate::grammar::valid_segment;
use sha2::Digest;
use vstd::prelude::*;
use vstd::string::StrSliceExecFns;
use vstd::string::StringExecFns;

verus! {

/// Compares two string slices character by character.
fn str_eq(a: &str, b: &str) -> (r: bool)
    ensures
        r == (a@ == b@),
{
    let n = a.unicode_len();
    let m = b.unicode_len();
    if n != m {
        proof {
            if a@ == b@ {
                assert(a@.len() == b@.len());
            }
        }
        return false;
    }
    let mut i: usize = 0;
    while i < n
        invariant
            0 <= i <= n,
            n == a@.len() && n == b@.len(),
            forall|j: int| 0 <= j < i ==> a@[j] == b@[j],
        decreases n - i,
    {
        if a.get_char(i) != b.get_char(i) {
            return false;
        }
        i += 1;
    }
    proof {
        assert(a@ =~= b@);
    }
    true
}

/// The fixed transaction-kind keyword strings, which stand for a transaction
/// argument and never resolve to a `Type`.
pub open spec fn is_tx_keyword(s: Seq<char>) -> bool {
    ||| s == "Any"@
    ||| s == "Payment"@
    ||| s == "KeyRegistration"@
    ||| s == "AssetConfig"@
    ||| s == "AssetTransfer"@
    ||| s == "AssetFreeze"@
    ||| s == "AppCall"@
}

/// The fixed reference-kind keyword strings.
pub open spec fn is_ref_keyword(s: Seq<char>) -> bool {
    ||| s == "AccountReferenceType"@
    ||| s == "AssetReferenceType"@
    ||| s == "ApplicationReferenceType"@
}

/// The seven transaction-kind keyword strings are pairwise distinct.
proof fn lemma_tx_keywords_distinct()
    ensures
        "Any"@ != "Payment"@ && "Any"@ != "KeyRegistration"@ && "Any"@ != "AssetConfig"@ && "Any"@
            != "AssetTransfer"@ && "Any"@ != "AssetFreeze"@ && "Any"@ != "AppCall"@,
        "Payment"@ != "KeyRegistration"@ && "Payment"@ != "AssetConfig"@ && "Payment"@
            != "AssetTransfer"@ && "Payment"@ != "AssetFreeze"@ && "Payment"@ != "AppCall"@,
        "KeyRegistration"@ != "AssetConfig"@ && "KeyRegistration"@ != "AssetTransfer"@
            && "KeyRegistration"@ != "AssetFreeze"@ && "KeyRegistration"@ != "AppCall"@,
        "AssetConfig"@ != "AssetTransfer"@ && "AssetConfig"@ != "AssetFreeze"@ && "AssetConfig"@
            != "AppCall"@,
        "AssetTransfer"@ != "AssetFreeze"@ && "AssetTransfer"@ != "AppCall"@,
        "AssetFreeze"@ != "AppCall"@,
{
    reveal_strlit("Any");
    reveal_strlit("Payment");
    reveal_strlit("KeyRegistration");
    reveal_strlit("AssetConfig");
    reveal_strlit("AssetTransfer");
    reveal_strlit("AssetFreeze");
    reveal_strlit("AppCall");
    assert("Any"@.len() == 3);
    assert("Payment"@.len() == 7);
    assert("KeyRegistration"@.len() == 15);
    assert("AssetConfig"@.len() == 11);
    assert("AssetTransfer"@.len() == 13);
    assert("AssetFreeze"@.len() == 11);
    assert("AppCall"@.len() == 7);
    assert("Payment"@[1] == 'a' && "AppCall"@[1] == 'p');
    assert("AssetConfig"@[5] == 'C' && "AssetFreeze"@[5] == 'F');
}

/// The three reference-kind keyword strings are pairwise distinct.
proof fn lemma_ref_keywords_distinct()
    ensures
        "AccountReferenceType"@ != "AssetReferenceType"@,
        "AccountReferenceType"@ != "ApplicationReferenceType"@,
        "AssetReferenceType"@ != "ApplicationReferenceType"@,
{
    reveal_strlit("AccountReferenceType");
    reveal_strlit("AssetReferenceType");
    reveal_strlit("ApplicationReferenceType");
    assert("AccountReferenceType"@.len() == 20);
    assert("AssetReferenceType"@.len() == 18);
    assert("ApplicationReferenceType"@.len() == 24);
}

/// One of the seven transaction-kind pseudo-types.
#[derive(Debug, Clone, PartialEq, Eq)]
pub enum TransactionArgType {
    Any,
    Payment,
    KeyRegistration,
    AssetConfig,
    AssetTransfer,
    AssetFreeze,
    AppCall,
}

impl TransactionArgType {
    /// Parses a transaction-kind keyword, each to its own variant; fails on
    /// every other string.
    pub fn from_api_str(s: &str) -> (r: Result<TransactionArgType, AbiError>)
        ensures
            r is Ok <==> is_tx_keyword(s@),
            s@ == "Any"@ ==> (r matches Ok(k) && k == TransactionArgType::Any),
            s@ == "Payment"@ ==> (r matches Ok(k) && k == TransactionArgType::Payment),
            s@ == "KeyRegistration"@ ==> (r matches Ok(k) && k == TransactionArgType::KeyRegistration),
            s@ == "AssetConfig"@ ==> (r matches Ok(k) && k == TransactionArgType::AssetConfig),
            s@ == "AssetTransfer"@ ==> (r matches Ok(k) && k == TransactionArgType::AssetTransfer),
            s@ == "AssetFreeze"@ ==> (r matches Ok(k) && k == TransactionArgType::AssetFreeze),
            s@ == "AppCall"@ ==> (r matches Ok(k) && k == TransactionArgType::AppCall),
    {
        proof {
            lemma_tx_keywords_distinct();
        }
        if str_eq(s, "Any") {
            Ok(TransactionArgType::Any)
        } else if str_eq(s, "Payment") {
            Ok(TransactionArgType::Payment)
        } else if str_eq(s, "KeyRegistration") {
            Ok(TransactionArgType::KeyRegistration)
        } else if str_eq(s, "AssetConfig") {
            Ok(TransactionArgType::AssetConfig)
        } else if str_eq(s, "AssetTransfer") {
            Ok(TransactionArgType::AssetTransfer)
        } else if str_eq(s, "AssetFreeze") {
            Ok(TransactionArgType::AssetFreeze)
        } else if str_eq(s, "AppCall") {
            Ok(TransactionArgType::AppCall)
        } else {
            Err(AbiError::Msg(String::from_str("Not supported transaction arg type api string")))
        }
    }

    /// Whether `s` is a transaction-kind keyword.
    pub fn is_valid_str(s: &str) -> (r: bool)
        ensures
            r == is_tx_keyword(s@),
    {
        Self::from_api_str(s).is_ok()
    }
}

/// One of the three reference-kind pseudo-types.
#[derive(Debug, Clone, PartialEq, Eq)]
pub enum ReferenceArgType {
    Account,
    Asset,
    Application,
}

impl ReferenceArgType {
    /// Parses a reference-kind keyword, each to its own variant; fails on
    /// every other string.
    pub fn from_api_str(s: &str) -> (r: Result<ReferenceArgType, AbiError>)
        ensures
            r is Ok <==> is_ref_keyword(s@),
            s@ == "AccountReferenceType"@ ==> (r matches Ok(k) && k == ReferenceArgType::Account),
            s@ == "AssetReferenceType"@ ==> (r matches Ok(k) && k == ReferenceArgType::Asset),
            s@ == "ApplicationReferenceType"@ ==> (r matches Ok(k) && k == ReferenceArgType::Application),
    {
        proof {
            lemma_ref_keywords_distinct();
        }
        if str_eq(s, "AccountReferenceType") {
            Ok(ReferenceArgType::Account)
        } else if str_eq(s, "AssetReferenceType") {
            Ok(ReferenceArgType::Asset)
        } else if str_eq(s, "ApplicationReferenceType") {
            Ok(ReferenceArgType::Application)
        } else {
            Err(AbiError::Msg(String::from_str("Not supported reference arg type api string")))
        }
    }

    /// Whether `s` is a reference-kind keyword.
    pub fn is_valid_str(s: &str) -> (r: bool)
        ensures
            r == is_ref_keyword(s@),
    {
        Self::from_api_str(s).is_ok()
    }
}

/// One argument of an ABI method.
#[derive(Debug, Clone, PartialEq, Eq)]
pub struct AbiArg {
    /// User-friendly name for the argument.
    pub name: Option<String>,
    /// The type of the argument as a string: a type string, or one of the
    /// transaction-kind or reference-kind keywords.
    pub type_: String,
    /// User-friendly description for the argument.
    pub description: Option<String>,
    /// Cache that holds the parsed type object.
    pub parsed: Option<AbiType>,
}

impl AbiArg {
    /// Whether this argument carries a transaction-kind keyword.
    pub fn is_transaction_arg(&self) -> (r: bool)
        ensures
            r == is_tx_keyword(self.type_@),
    {
        TransactionArgType::is_valid_str(self.type_.as_str())
    }

    /// Whether this argument carries a reference-kind keyword.
    pub fn is_reference_arg(&self) -> (r: bool)
        ensures
            r == is_ref_keyword(self.type_@),
    {
        ReferenceArgType::is_valid_str(self.type_.as_str())
    }

    /// Parses and returns the type object of this argument's type string,
    /// caching the result. A transaction-kind or reference-kind argument has
    /// no type object, so asking for one is an error.
    pub fn get_type_object(&mut self) -> (r: Result<AbiType, AbiError>)
        ensures
            final(self).name == old(self).name,
            final(self).type_ == old(self).type_,
            final(self).description == old(self).description,
            is_tx_keyword(old(self).type_@) || is_ref_keyword(old(self).type_@) ==> r is Err
                && *final(self) == *old(self),
            !(is_tx_keyword(old(self).type_@) || is_ref_keyword(old(self).type_@)) ==> match old(
                self,
            ).parsed {
                Some(t) => (r matches Ok(u) && u.deep_eq(t)) && *final(self) == *old(self),
                None => {
                    &&& (r is Ok <==> is_type_str(old(self).type_@))
                    &&& (r matches Ok(u) ==> u.wf() && u.spec_format() == old(self).type_@ && (
                    final(self).parsed matches Some(t2) && t2.deep_eq(u)))
                    &&& (r is Err ==> *final(self) == *old(self))
                },
            },
    {
        if self.is_transaction_arg() {
            return Err(AbiError::Msg(String::from_str("Invalid operation on transaction type")));
        }
        if self.is_reference_arg() {
            return Err(AbiError::Msg(String::from_str("Invalid operation on reference type")));
        }
        match &self.parsed {
            Some(parsed) => Ok(parsed.clone()),
            None => {
                match AbiType::from_string(self.type_.as_str()) {
                    Ok(type_obj) => {
                        let copy = type_obj.clone();
                        proof {
                            crate::abi_type::lemma_deep_eq_format(copy, type_obj);
                        }
                        self.parsed = Some(copy);
                        Ok(type_obj)
                    },
                    Err(e) => Err(e),
                }
            },
        }
    }
}

/// The return of an ABI method; the string `void` means no value is
/// returned.
#[derive(Debug, Clone, PartialEq, Eq)]
pub struct AbiReturn {
    /// The type of the returned value as a string, or `void`.
    pub type_: String,
    /// User-friendly description for the returned value.
    pub description: Option<String>,
    /// Cache that holds the parsed type object.
    pub parsed: Option<AbiType>,
}

impl AbiReturn {
    /// Whether this is the `void` return.
    pub fn is_void(&self) -> (r: bool)
        ensures
            r == (self.type_@ == "void"@),
    {
        str_eq(self.type_.as_str(), "void")
    }

    /// Parses and returns the type object of the return type string, caching
    /// the result. The `void` return has no type object.
    pub fn get_type_object(&mut self) -> (r: Result<AbiType, AbiError>)
        ensures
            final(self).type_ == old(self).type_,
            final(self).description == old(self).description,
            old(self).type_@ == "void"@ ==> r is Err && *final(self) == *old(self),
            old(self).type_@ != "void"@ ==> match old(self).parsed {
                Some(t) => (r matches Ok(u) && u.deep_eq(t)) && *final(self) == *old(self),
                None => {
                    &&& (r is Ok <==> is_type_str(old(self).type_@))
                    &&& (r matches Ok(u) ==> u.wf() && u.spec_format() == old(self).type_@ && (
                    final(self).parsed matches Some(t2) && t2.deep_eq(u)))
                    &&& (r is Err ==> *final(self) == *old(self))
                },
            },
    {
        if self.is_void() {
            return Err(AbiError::Msg(String::from_str("Invalid operation on void return type")));
        }
        match &self.parsed {
            Some(parsed) => Ok(parsed.clone()),
            None => {
                match AbiType::from_string(self.type_.as_str()) {
                    Ok(type_obj) => {
                        let copy = type_obj.clone();
                        proof {
                            crate::abi_type::lemma_deep_eq_format(copy, type_obj);
                        }
                        self.parsed = Some(copy);
                        Ok(type_obj)
                    },
                    Err(e) => Err(e),
                }
            },
        }
    }
}

/// An ABI method: name, ordered arguments, and return.
#[derive(Debug, Clone, PartialEq, Eq)]
pub struct AbiMethod {
    /// The name of the method.
    pub name: String,
    /// User-friendly description for the method.
    pub description: Option<String>,
    /// The arguments of the method, in order.
    pub args: Vec<AbiArg>,
    /// Information about the method's return value.
    pub returns: AbiReturn,
}

/// The raw type strings of a method's arguments, in order.
pub open spec fn spec_arg_types(args: Seq<AbiArg>) -> Seq<Seq<char>> {
    args.map_values(|a: AbiArg| a.type_@)
}

/// The canonical signature string of a method, built from the stored raw
/// strings: `name(type0,...,typek)return`.
pub open spec fn spec_signature(m: AbiMethod) -> Seq<char> {
    m.name@ + seq!['('] + join_commas(spec_arg_types(m.args@)) + seq![')'] + m.returns.type_@
}

/// Number of transaction-kind arguments in the list.
pub open spec fn count_tx_args(args: Seq<AbiArg>) -> nat
    decreases args.len(),
{
    if args.len() == 0 {
        0
    } else {
        count_tx_args(args.drop_last()) + (if is_tx_keyword(args.last().type_@) {
            1nat
        } else {
            0nat
        })
    }
}

/// The digest that the selector derivation relies on, as a function of the
/// hashed text.
pub uninterp spec fn spec_selector_digest(s: Seq<char>) -> Seq<u8>;

/// Relies on sha2's `Sha512_256`: the SHA-512/256 digest of the UTF-8 bytes
/// of the input is 32 bytes long and depends on the input alone.
#[verifier::external_body]
fn sha512_256_digest(s: &str) -> (r: Vec<u8>)
    ensures
        r@ == spec_selector_digest(s@),
        r@.len() == 32,
{
    sha2::Sha512_256::digest(s.as_bytes()).to_vec()
}

impl AbiMethod {
    /// Calculates and returns the signature of the method, from the stored
    /// raw type strings.
    #[verifier::loop_isolation(false)]
    pub fn get_signature(&self) -> (r: String)
        ensures
            r@ == spec_signature(*self),
    {
        let mut out = String::new();
        out.append(self.name.as_str());
        out.append("(");
        proof {
            reveal_strlit("(");
            assert("("@ =~= seq!['(']);
        }
        let n = self.args.len();
        for i in 0..n
            invariant
                n == self.args@.len(),
                out@ == self.name@ + seq!['('] + join_commas(spec_arg_types(self.args@.take(i as int))),
        {
            if i > 0 {
                out.append(",");
                proof {
                    reveal_strlit(",");
                    assert(","@ =~= seq![',']);
                }
            }
            out.append(self.args[i].type_.as_str());
            proof {
                let raws = spec_arg_types(self.args@);
                let pre = spec_arg_types(self.args@.take(i + 1));
                assert(pre.drop_last() =~= spec_arg_types(self.args@.take(i as int)));
                assert(pre.last() == self.args@[i as int].type_@);
                if i == 0 {
                    assert(join_commas(pre) == self.args@[0].type_@);
                    assert(out@ =~= self.name@ + seq!['('] + join_commas(pre));
                } else {
                    assert(join_commas(pre) == join_commas(pre.drop_last()) + seq![',']
                        + pre.last());
                    assert(out@ =~= self.name@ + seq!['('] + join_commas(pre));
                }
            }
        }
        out.append(")");
        out.append(self.returns.type_.as_str());
        proof {
            reveal_strlit(")");
            assert(")"@ =~= seq![')']);
            assert(self.args@.take(n as int) =~= self.args@);
            assert(out@ =~= spec_signature(*self));
        }
        out
    }

    /// Calculates and returns the 4-byte selector of the method: the first
    /// four bytes of the SHA-512/256 digest of the signature string.
    pub fn get_selector(&self) -> (r: Result<[u8; 4], AbiError>)
        ensures
            (r matches Ok(sel) && sel@ == spec_selector_digest(spec_signature(*self)).take(4)),
    {
        let sig = self.get_signature();
        let digest = sha512_256_digest(sig.as_str());
        let sel: [u8; 4] = [digest[0], digest[1], digest[2], digest[3]];
        proof {
            assert(sel@ =~= spec_selector_digest(spec_signature(*self)).take(4));
        }
        Ok(sel)
    }

    /// Returns the number of transactions required to invoke this method:
    /// one for the call itself plus one per transaction-kind argument.
    #[verifier::loop_isolation(false)]
    pub fn get_tx_count(&self) -> (r: usize)
        requires
            self.args@.len() < usize::MAX,
        ensures
            r == 1 + count_tx_args(self.args@),
    {
        let mut count: usize = 1;
        let n = self.args.len();
        for i in 0..n
            invariant
                n == self.args@.len(),
                count == 1 + count_tx_args(self.args@.take(i as int)),
                count <= 1 + i,
        {
            proof {
                assert(self.args@.take(i + 1).drop_last() =~= self.args@.take(i as int));
                assert(self.args@.take(i + 1).last() == self.args@[i as int]);
            }
            if self.args[i].is_transaction_arg() {
                count += 1;
            }
        }
        proof {
            assert(self.args@.take(n as int) =~= self.args@);
        }
        count
    }
}

/// A keyword pseudo-type string is a valid list segment: non-empty, with no
/// parentheses and no commas.
proof fn lemma_keyword_segment(a: Seq<char>)
    requires
        is_tx_keyword(a) || is_ref_keyword(a),
    ensures
        valid_segment(a),
{
    reveal_strlit("Any");
    reveal_strlit("Payment");
    reveal_strlit("KeyRegistration");
    reveal_strlit("AssetConfig");
    reveal_strlit("AssetTransfer");
    reveal_strlit("AssetFreeze");
    reveal_strlit("AppCall");
    reveal_strlit("AccountReferenceType");
    reveal_strlit("AssetReferenceType");
    reveal_strlit("ApplicationReferenceType");
    assert forall|i: int| 0 <= i < a.len() implies #[trigger] a[i] != '(' && a[i] != ')' && a[i]
        != ',' by {}
    crate::grammar::lemma_no_paren_comma_segment(a);
}

/// A string that may stand as one method argument: a keyword pseudo-type or
/// a type string.
pub open spec fn valid_arg_str(a: Seq<char>) -> bool {
    is_tx_keyword(a) || is_ref_keyword(a) || is_type_str(a)
}

/// A string that may stand as the return: `void` or a type string.
pub open spec fn valid_ret_str(a: Seq<char>) -> bool {
    a == "void"@ || is_type_str(a)
}

proof fn lemma_valid_arg_segment(a: Seq<char>)
    requires
        valid_arg_str(a),
    ensures
        valid_segment(a),
{
    if is_tx_keyword(a) || is_ref_keyword(a) {
        lemma_keyword_segment(a);
    } else {
        let t = choose|t: AbiType| t.wf() && #[trigger] t.spec_format() == a;
        crate::abi_type::lemma_format_shape(t);
    }
}

/// No argument string holds two adjacent commas: the keywords hold no comma
/// at all, and canonical type strings never place two next to each other.
proof fn lemma_valid_arg_no_double_comma(a: Seq<char>)
    requires
        valid_arg_str(a),
    ensures
        !has_double_comma(a),
{
    if is_tx_keyword(a) || is_ref_keyword(a) {
        reveal_strlit("Any");
        reveal_strlit("Payment");
        reveal_strlit("KeyRegistration");
        reveal_strlit("AssetConfig");
        reveal_strlit("AssetTransfer");
        reveal_strlit("AssetFreeze");
        reveal_strlit("AppCall");
        reveal_strlit("AccountReferenceType");
        reveal_strlit("AssetReferenceType");
        reveal_strlit("ApplicationReferenceType");
        assert forall|i: int| 0 <= i < a.len() implies #[trigger] a[i] != ',' by {}
    } else {
        let t = choose|t: AbiType| t.wf() && #[trigger] t.spec_format() == a;
        crate::abi_type::lemma_format_no_double_comma(t);
    }
}

/// `s` decomposes as `name(arg0,...,argk)ret`: a non-empty name without `(`,
/// then a parenthesized list of valid argument strings, then a valid return
/// string.
pub open spec fn valid_sig_decomp(
    s: Seq<char>,
    name: Seq<char>,
    args: Seq<Seq<char>>,
    ret: Seq<char>,
) -> bool {
    &&& name.len() > 0
    &&& forall|i: int| 0 <= i < name.len() ==> #[trigger] name[i] != '('
    &&& forall|i: int| 0 <= i < args.len() ==> valid_arg_str(#[trigger] args[i])
    &&& valid_ret_str(ret)
    &&& s == name + seq!['('] + join_commas(args) + seq![')'] + ret
}

/// Positional consequences of a signature decomposition: where the
/// parentheses stand, and that no earlier close can end the argument list.
proof fn lemma_sig_decomp_facts(s: Seq<char>, name: Seq<char>, args: Seq<Seq<char>>, ret: Seq<char>)
    requires
        valid_sig_decomp(s, name, args, ret),
    ensures
        ({
            let open = name.len() as int;
            let jn = join_commas(args);
            let close = name.len() + 1 + jn.len() as int;
            &&& s.len() == name.len() + 2 + jn.len() + ret.len()
            &&& s[open] == '('
            &&& (forall|i: int| 0 <= i < open ==> #[trigger] s[i] != '(')
            &&& s[close] == ')'
            &&& name == s.take(open)
            &&& jn == s.subrange(open + 1, close)
            &&& ret == s.subrange(close + 1, s.len() as int)
            &&& pdepth(jn) == 0
            &&& (forall|m: int|
                open + 1 <= m < close ==> !(#[trigger] s[m] == ')' && pdepth(
                    s.subrange(open + 1, m),
                ) == 0))
            &&& (args.len() == 0 ==> jn.len() == 0)
            &&& (args.len() > 0 ==> is_segments(jn, args))
        }),
{
    let open = name.len() as int;
    let jn = join_commas(args);
    let close = open + 1 + jn.len() as int;
    assert(s == name + seq!['('] + jn + seq![')'] + ret);
    if args.len() > 0 {
        assert forall|i: int| 0 <= i < args.len() implies valid_segment(#[trigger] args[i]) by {
            lemma_valid_arg_segment(args[i]);
        }
        crate::grammar::lemma_join_balanced(args);
        assert(is_segments(jn, args));
    } else {
        assert(jn =~= Seq::<char>::empty());
    }
    assert(s[open] == '(');
    assert(s[close] == ')');
    assert(name =~= s.take(open));
    assert(jn =~= s.subrange(open + 1, close));
    assert(ret =~= s.subrange(close + 1, s.len() as int));
    assert forall|i: int| 0 <= i < open implies #[trigger] s[i] != '(' by {
        assert(s[i] == name[i]);
    }
    assert forall|m: int|
        open + 1 <= m < close implies !(#[trigger] s[m] == ')' && pdepth(s.subrange(open + 1, m))
        == 0) by {
        let q = m - open - 1;
        assert(s[m] == jn[q]);
        assert(s.subrange(open + 1, m) =~= jn.take(q));
        if s[m] == ')' && pdepth(jn.take(q)) == 0 {
            assert(jn.take(q + 1).drop_last() =~= jn.take(q));
            assert(jn.take(q + 1).last() == jn[q]);
            assert(pdepth(jn.take(q + 1)) == -1);
            if args.len() > 0 {
                assert(pdepth(jn.take(q + 1)) >= 0);
            }
            assert(false);
        }
    }
}

impl AbiMethod {
    /// Decodes a method signature string `name(arg0,...,argk)return` into a
    /// method object, resolving every non-keyword argument type and a
    /// non-`void` return type eagerly.
    ///
    /// Succeeds exactly on the strings that decompose as a valid signature;
    /// the stored raw strings then reproduce the input through
    /// [`AbiMethod::get_signature`].
    #[verifier::loop_isolation(false)]
    #[verifier::rlimit(100)]
    pub fn from_signature(method_str: &str) -> (r: Result<AbiMethod, AbiError>)
        ensures
            (r matches Ok(m) ==> {
                &&& m.description is None
                &&& m.name@.len() > 0
                &&& (forall|i: int| 0 <= i < m.name@.len() ==> #[trigger] m.name@[i] != '(')
                &&& m.returns.description is None
                &&& (m.returns.type_@ == "void"@ ==> m.returns.parsed is None)
                &&& (m.returns.type_@ != "void"@ ==> (m.returns.parsed matches Some(t) && t.wf()
                    && t.spec_format() == m.returns.type_@))
                &&& (forall|i: int|
                    0 <= i < m.args@.len() ==> (#[trigger] m.args@[i]).name is None
                        && m.args@[i].description is None)
                &&& (forall|i: int|
                    0 <= i < m.args@.len() ==> if is_tx_keyword((#[trigger] m.args@[i]).type_@)
                        || is_ref_keyword(m.args@[i].type_@) {
                        m.args@[i].parsed is None
                    } else {
                        m.args@[i].parsed matches Some(t) && t.wf() && t.spec_format()
                            == m.args@[i].type_@
                    })
                &&& method_str@ == spec_signature(m)
                &&& valid_sig_decomp(
                    method_str@,
                    m.name@,
                    spec_arg_types(m.args@),
                    m.returns.type_@,
                )
            }),
            (r is Err ==> forall|name: Seq<char>, args: Seq<Seq<char>>, ret: Seq<char>|
                !#[trigger] valid_sig_decomp(method_str@, name, args, ret)),
    {
        let v = crate::abi_type::str_to_chars(method_str);
        let n = v.len();
        let ghost sv = v@;
        // locate the first opening parenthesis
        let mut open_idx: usize = 0;
        let mut opened = false;
        while open_idx < n && !opened
            invariant
                0 <= open_idx <= n,
                opened ==> open_idx < n && sv[open_idx as int] == '(',
                !opened ==> forall|j: int| 0 <= j < open_idx ==> sv[j] != '(',
                opened ==> forall|j: int| 0 <= j < open_idx ==> sv[j] != '(',
            decreases n - open_idx + (if opened {
                0int
            } else {
                1int
            }),
        {
            if v[open_idx] == '(' {
                opened = true;
            } else {
                open_idx += 1;
            }
        }
        if !opened {
            proof {
                assert forall|nm: Seq<char>, ags: Seq<Seq<char>>, rt: Seq<char>|
                    !#[trigger] valid_sig_decomp(sv, nm, ags, rt) by {
                    if valid_sig_decomp(sv, nm, ags, rt) {
                        lemma_sig_decomp_facts(sv, nm, ags, rt);
                        assert(sv[nm.len() as int] == '(');
                        assert(false);
                    }
                }
            }
            return Err(
                AbiError::Msg(String::from_str("method signature is missing an open parenthesis")),
            );
        }
        if open_idx == 0 {
            proof {
                assert forall|nm: Seq<char>, ags: Seq<Seq<char>>, rt: Seq<char>|
                    !#[trigger] valid_sig_decomp(sv, nm, ags, rt) by {
                    if valid_sig_decomp(sv, nm, ags, rt) {
                        lemma_sig_decomp_facts(sv, nm, ags, rt);
                        assert(sv[0] != '(');
                        assert(false);
                    }
                }
            }
            return Err(AbiError::Msg(String::from_str("method must have a non empty name")));
        }
        // find the matching closing parenthesis of the argument list
        let mut i: usize = open_idx + 1;
        let mut d: usize = 1;
        let mut close_idx: usize = 0;
        let mut closed = false;
        while i < n && !closed
            invariant
                open_idx + 1 <= i <= n,
                open_idx < n,
                !closed ==> d >= 1 && d as int == 1 + pdepth(sv.subrange(open_idx + 1, i as int)),
                !closed ==> d <= i,
                forall|m: int|
                    open_idx + 1 <= m < (if closed {
                        close_idx as int
                    } else {
                        i as int
                    }) ==> !(#[trigger] sv[m] == ')' && pdepth(sv.subrange(open_idx + 1, m)) == 0),
                closed ==> open_idx + 1 <= close_idx < i && sv[close_idx as int] == ')' && pdepth(
                    sv.subrange(open_idx + 1, close_idx as int),
                ) == 0,
                closed ==> i == close_idx + 1,
            decreases n - i + (if closed {
                0int
            } else {
                1int
            }),
        {
            let c = v[i];
            proof {
                assert(sv.subrange(open_idx + 1, i + 1).drop_last() =~= sv.subrange(
                    open_idx + 1,
                    i as int,
                ));
                assert(sv.subrange(open_idx + 1, i + 1).last() == sv[i as int]);
            }
            if c == '(' {
                d += 1;
            } else if c == ')' {
                if d == 1 {
                    close_idx = i;
                    closed = true;
                } else {
                    d -= 1;
                }
            }
            i += 1;
        }
        if !closed {
            proof {
                assert forall|nm: Seq<char>, ags: Seq<Seq<char>>, rt: Seq<char>|
                    !#[trigger] valid_sig_decomp(sv, nm, ags, rt) by {
                    if valid_sig_decomp(sv, nm, ags, rt) {
                        lemma_sig_decomp_facts(sv, nm, ags, rt);
                        let dopen = nm.len() as int;
                        let dclose = dopen + 1 + join_commas(ags).len() as int;
                        assert(dopen == open_idx) by {
                            if dopen < open_idx {
                                assert(sv[dopen] == '(');
                            }
                            if dopen > open_idx {
                                assert(sv[open_idx as int] != '(');
                            }
                        }
                        assert(sv[dclose] == ')' && pdepth(sv.subrange(open_idx + 1, dclose))
                            == 0);
                        assert(false);
                    }
                }
            }
            return Err(AbiError::Msg(String::from_str("method signature parentheses mismatch")));
        }
        proof {
            // a hypothetical decomposition closes exactly where the scan did
            assert forall|nm: Seq<char>, ags: Seq<Seq<char>>, rt: Seq<char>|
                #[trigger] valid_sig_decomp(sv, nm, ags, rt) implies nm.len() == open_idx && nm.len()
                + 1 + join_commas(ags).len() == close_idx by {
                lemma_sig_decomp_facts(sv, nm, ags, rt);
                let dopen = nm.len() as int;
                let dclose = dopen + 1 + join_commas(ags).len() as int;
                assert(dopen == open_idx) by {
                    if dopen < open_idx {
                        assert(sv[dopen] == '(');
                    }
                    if dopen > open_idx {
                        assert(sv[open_idx as int] != '(');
                    }
                }
                assert(dclose == close_idx) by {
                    if dclose < close_idx {
                        assert(sv[dclose] == ')' && pdepth(sv.subrange(open_idx + 1, dclose))
                            == 0);
                    }
                    if dclose > close_idx {
                        assert(!(sv[close_idx as int] == ')' && pdepth(
                            sv.subrange(open_idx + 1, close_idx as int),
                        ) == 0));
                    }
                }
            }
        }
        let ghost inner = sv.subrange(open_idx + 1, close_idx as int);
        // collect the raw argument strings
        let mut args: Vec<AbiArg> = Vec::new();
        if close_idx > open_idx + 1 {
            match crate::abi_type::split_segments(&v, open_idx + 1, close_idx) {
                Err(err) => {
                    proof {
                        assert forall|nm: Seq<char>, ags: Seq<Seq<char>>, rt: Seq<char>|
                            !#[trigger] valid_sig_decomp(sv, nm, ags, rt) by {
                            if valid_sig_decomp(sv, nm, ags, rt) {
                                lemma_sig_decomp_facts(sv, nm, ags, rt);
                                assert(join_commas(ags) == inner);
                                if ags.len() == 0 {
                                    assert(inner.len() == 0);
                                    assert(false);
                                }
                                assert(is_segments(inner, ags));
                                assert forall|q: int|
                                    0 <= q < ags.len() implies !has_double_comma(
                                    #[trigger] ags[q]) by {
                                    lemma_valid_arg_no_double_comma(ags[q]);
                                }
                                crate::grammar::lemma_join_no_double_comma(ags);
                                assert(!has_double_comma(inner));
                                assert(false);
                            }
                        }
                    }
                    return Err(err);
                },
                Ok(segs) => {
                    let m = segs.len();
                    let ghost views = crate::abi_type::seg_views(sv, segs@);
                    for idx in 0..m
                        invariant
                            m == segs@.len(),
                            args@.len() == idx,
                            forall|q: int|
                                0 <= q < idx ==> (#[trigger] args@[q]).name is None
                                    && args@[q].description is None && args@[q].type_@ == views[q],
                            forall|q: int|
                                0 <= q < idx ==> if is_tx_keyword((#[trigger] args@[q]).type_@)
                                    || is_ref_keyword(args@[q].type_@) {
                                    args@[q].parsed is None
                                } else {
                                    args@[q].parsed matches Some(t) && t.wf() && t.spec_format()
                                        == args@[q].type_@
                                },
                    {
                        let pr = segs[idx];
                        let piece = crate::abi_type::copy_range(&v, pr.0, pr.1);
                        let raw = crate::abi_type::chars_to_string(&piece);
                        proof {
                            assert(views[idx as int] == sv.subrange(pr.0 as int, pr.1 as int));
                        }
                        if TransactionArgType::is_valid_str(raw.as_str())
                            || ReferenceArgType::is_valid_str(raw.as_str()) {
                            args.push(
                                AbiArg { name: None, type_: raw, description: None, parsed: None },
                            );
                        } else {
                            match crate::abi_type::parse_range(&v, pr.0, pr.1) {
                                Ok(t) => {
                                    args.push(
                                        AbiArg {
                                            name: None,
                                            type_: raw,
                                            description: None,
                                            parsed: Some(t),
                                        },
                                    );
                                },
                                Err(err) => {
                                    proof {
                                        assert forall|
                                            nm: Seq<char>,
                                            ags: Seq<Seq<char>>,
                                            rt: Seq<char>,
                                        |
                                            !#[trigger] valid_sig_decomp(sv, nm, ags, rt) by {
                                            if valid_sig_decomp(sv, nm, ags, rt) {
                                                lemma_sig_decomp_facts(sv, nm, ags, rt);
                                                assert(join_commas(ags) == inner);
                                                if ags.len() == 0 {
                                                    assert(inner.len() == 0);
                                                    assert(false);
                                                }
                                                crate::grammar::lemma_segments_unique(
                                                    inner,
                                                    ags,
                                                    views,
                                                );
                                                assert(ags[idx as int] == views[idx as int]);
                                                assert(valid_arg_str(views[idx as int]));
                                                assert(!is_tx_keyword(views[idx as int])
                                                    && !is_ref_keyword(views[idx as int]));
                                                let t = choose|t: AbiType|
                                                    t.wf() && #[trigger] t.spec_format()
                                                        == views[idx as int];
                                                assert(t.spec_format() != sv.subrange(
                                                    pr.0 as int,
                                                    pr.1 as int,
                                                ));
                                                assert(false);
                                            }
                                        }
                                    }
                                    return Err(err);
                                },
                            }
                        }
                    }
                    proof {
                        assert(spec_arg_types(args@) =~= views);
                    }
                },
            }
        }
        // the return type string
        let ret_piece = crate::abi_type::copy_range(&v, close_idx + 1, n);
        let ret_raw = crate::abi_type::chars_to_string(&ret_piece);
        let return_type: AbiReturn;
        if str_eq(ret_raw.as_str(), "void") {
            return_type = AbiReturn { type_: ret_raw, description: None, parsed: None };
        } else {
            match crate::abi_type::parse_range(&v, close_idx + 1, n) {
                Ok(t) => {
                    return_type = AbiReturn { type_: ret_raw, description: None, parsed: Some(t) };
                },
                Err(err) => {
                    proof {
                        assert forall|nm: Seq<char>, ags: Seq<Seq<char>>, rt: Seq<char>|
                            !#[trigger] valid_sig_decomp(sv, nm, ags, rt) by {
                            if valid_sig_decomp(sv, nm, ags, rt) {
                                lemma_sig_decomp_facts(sv, nm, ags, rt);
                                assert(rt == sv.subrange(close_idx + 1, sv.len() as int));
                                assert(rt != "void"@);
                                assert(is_type_str(rt));
                                let t = choose|t: AbiType|
                                    t.wf() && #[trigger] t.spec_format() == rt;
                                assert(t.spec_format() != sv.subrange(close_idx + 1, n as int));
                                assert(false);
                            }
                        }
                    }
                    return Err(err);
                },
            }
        }
        let name_piece = crate::abi_type::copy_range(&v, 0, open_idx);
        let name = crate::abi_type::chars_to_string(&name_piece);
        let m = AbiMethod { name, description: None, args, returns: return_type };
        proof {
            assert(m.name@ == sv.take(open_idx as int));
            assert forall|i: int| 0 <= i < m.name@.len() implies #[trigger] m.name@[i] != '(' by {
                assert(m.name@[i] == sv[i]);
            }
            assert(join_commas(spec_arg_types(m.args@)) == inner) by {
                if close_idx > open_idx + 1 {
                } else {
                    assert(spec_arg_types(m.args@) =~= Seq::<Seq<char>>::empty());
                    assert(inner =~= Seq::<char>::empty());
                }
            }
            assert(sv =~= m.name@ + seq!['('] + inner + seq![')'] + m.returns.type_@);
            assert(method_str@ == spec_signature(m));
            assert forall|i: int|
                0 <= i < m.args@.len() implies valid_arg_str((#[trigger] m.args@[i]).type_@) by {}
            assert(valid_sig_decomp(method_str@, m.name@, spec_arg_types(m.args@), m.returns.type_@));
        }
        Ok(m)
    }
}

/// An ABI interface: a logically grouped collection of methods.
#[derive(Debug, Clone)]
pub struct AbiInterface {
    /// The name of the interface.
    pub name: String,
    /// User-friendly description for the interface.
    pub description: Option<String>,
    /// The methods that the interface contains.
    pub methods: Vec<AbiMethod>,
}

/// Network-specific information about a deployed contract.
#[derive(Debug, Clone)]
pub struct AbiContractNetworkInfo {
    /// The application ID of the contract for this network.
    pub app_id: u64,
}

/// An ABI contract: a concrete set of methods implemented by a single app.
#[derive(Debug, Clone)]
pub struct AbiContract {
    /// The name of the contract.
    pub name: String,
    /// User-friendly description for the contract.
    pub description: Option<String>,
    /// Information about the contract's instances across networks, keyed by
    /// network identifier.
    pub networks: std::collections::HashMap<String, AbiContractNetworkInfo>,
    /// The methods that the contract contains.
    pub methods: Vec<AbiMethod>,
}

} // verus!
