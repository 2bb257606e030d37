//! The option grammar of the SET command: `[NX|XX] [GET] [EX <secs>|PX
//! <millis>]`, scanned left to right with stateful mutual exclusion.

use crate::storage_result::{StorageError, StorageResult};
use crate::text::{case_eq, eq_ignore_case, int_is_negative, int_text_val, valid_int_text};
use vstd::prelude::*;
use vstd::string::StrSliceExecFns;
use vstd::string::StringExecFns;

verus! {

/// The existence condition gating a write.
#[derive(Debug, PartialEq, Eq, Structural, Clone, Copy)]
pub enum KeyExistence {
    /// Write only when the key is absent.
    NX,
    /// Write only when the key already exists.
    XX,
}

/// The expiry directive of a write, relative to the moment the command
/// runs.
#[derive(Debug, PartialEq, Eq, Structural, Clone, Copy)]
pub enum KeyExpiry {
    /// Expire after the given number of seconds.
    EX(u64),
    /// Expire after the given number of milliseconds.
    PX(u64),
}

/// The parsed options of a SET command.
#[derive(Debug, PartialEq, Eq, Clone, Copy)]
pub struct SetArgs {
    pub expiry: Option<KeyExpiry>,
    pub existence: Option<KeyExistence>,
    pub get: bool,
}

impl SetArgs {
    /// The empty options record: no condition, no expiry, no read-back.
    pub fn new() -> (r: Self)
        ensures
            r == (SetArgs { expiry: None, existence: None, get: false }),
    {
        SetArgs { expiry: None, existence: None, get: false }
    }
}

/// One scan step of the option grammar, from token `i` with what is
/// already accumulated; `None` is a syntax error.
pub open spec fn spec_parse_set_args_from(args: Seq<Seq<char>>, i: int, acc: SetArgs) -> Option<
    SetArgs,
>
    decreases args.len() - i,
{
    if i >= args.len() {
        Some(acc)
    } else {
        let t = args[i];
        if case_eq(t, "nx"@) {
            if acc.existence == Some(KeyExistence::XX) {
                None
            } else {
                spec_parse_set_args_from(
                    args,
                    i + 1,
                    SetArgs { existence: Some(KeyExistence::NX), ..acc },
                )
            }
        } else if case_eq(t, "xx"@) {
            if acc.existence == Some(KeyExistence::NX) {
                None
            } else {
                spec_parse_set_args_from(
                    args,
                    i + 1,
                    SetArgs { existence: Some(KeyExistence::XX), ..acc },
                )
            }
        } else if case_eq(t, "get"@) {
            spec_parse_set_args_from(args, i + 1, SetArgs { get: true, ..acc })
        } else if case_eq(t, "ex"@) {
            if acc.expiry matches Some(KeyExpiry::PX(_)) {
                None
            } else if i + 1 >= args.len() {
                None
            } else if !valid_int_text(args[i + 1]) || int_is_negative(args[i + 1]) || int_text_val(
                args[i + 1],
            ) > u64::MAX {
                None
            } else {
                spec_parse_set_args_from(
                    args,
                    i + 2,
                    SetArgs { expiry: Some(KeyExpiry::EX(int_text_val(args[i + 1]) as u64)), ..acc },
                )
            }
        } else if case_eq(t, "px"@) {
            if acc.expiry matches Some(KeyExpiry::EX(_)) {
                None
            } else if i + 1 >= args.len() {
                None
            } else if !valid_int_text(args[i + 1]) || int_is_negative(args[i + 1]) || int_text_val(
                args[i + 1],
            ) > u64::MAX {
                None
            } else {
                spec_parse_set_args_from(
                    args,
                    i + 2,
                    SetArgs { expiry: Some(KeyExpiry::PX(int_text_val(args[i + 1]) as u64)), ..acc },
                )
            }
        } else {
            None
        }
    }
}

/// The whole option grammar over an argument list.
pub open spec fn spec_parse_set_args(args: Seq<Seq<char>>) -> Option<SetArgs> {
    spec_parse_set_args_from(args, 0, SetArgs { expiry: None, existence: None, get: false })
}

/// The argument list joined with single spaces, the payload of every
/// syntax error.
pub open spec fn spec_join_spaces(args: Seq<Seq<char>>) -> Seq<char>
    decreases args.len(),
{
    if args.len() == 0 {
        Seq::empty()
    } else if args.len() == 1 {
        args[0]
    } else {
        spec_join_spaces(args.drop_last()) + seq![' '] + args.last()
    }
}

/// Joins the arguments with single spaces.
pub fn join_with_spaces(args: &Vec<String>) -> (r: String)
    ensures
        r@ == spec_join_spaces(args.deep_view()),
{
    let ghost dv = args.deep_view();
    let mut out = String::new();
    let mut i: usize = 0;
    while i < args.len()
        invariant
            i <= args@.len(),
            dv == args.deep_view(),
            dv.len() == args@.len(),
            forall|k: int| 0 <= k < args@.len() ==> dv[k] == args@[k]@,
            out@ == spec_join_spaces(dv.take(i as int)),
        decreases args@.len() - i,
    {
        if i > 0 {
            out.append(" ");
        }
        out.append(args[i].as_str());
        proof {
            assert(dv.take(i + 1).drop_last() =~= dv.take(i as int));
            assert(dv.take(i + 1).last() == dv[i as int]);
            reveal_strlit(" ");
            assert(" "@ =~= seq![' ']);
            assert(out@ =~= spec_join_spaces(dv.take(i + 1)));
        }
        i = i + 1;
    }
    proof {
        assert(dv.take(args@.len() as int) =~= dv);
    }
    out
}

/// Parses the trailing arguments of SET into an options record; any
/// violation of the grammar is a syntax error carrying the whole argument
/// list.
pub fn parse_set_arguments(arguments: &Vec<String>) -> (r: StorageResult<SetArgs>)
    ensures
        match spec_parse_set_args(arguments.deep_view()) {
            Some(a) => r matches Ok(got) && got == a,
            None => r matches Err(e) && e.deep_view()
                == crate::storage_result::StorageErrorData::CommandSyntaxError(
                spec_join_spaces(arguments.deep_view()),
            ),
        },
{
    let ghost dv = arguments.deep_view();
    let mut args = SetArgs::new();
    let mut idx: usize = 0;
    while idx < arguments.len()
        invariant
            idx <= arguments@.len(),
            dv == arguments.deep_view(),
            dv.len() == arguments@.len(),
            forall|k: int| 0 <= k < arguments@.len() ==> dv[k] == arguments@[k]@,
            spec_parse_set_args(dv) == spec_parse_set_args_from(dv, idx as int, args),
        decreases arguments@.len() - idx,
    {
        let token = &arguments[idx];
        if eq_ignore_case(token.as_str(), "nx") {
            if matches!(args.existence, Some(KeyExistence::XX)) {
                return Err(StorageError::CommandSyntaxError(join_with_spaces(arguments)));
            }
            args.existence = Some(KeyExistence::NX);
            idx = idx + 1;
        } else if eq_ignore_case(token.as_str(), "xx") {
            if matches!(args.existence, Some(KeyExistence::NX)) {
                return Err(StorageError::CommandSyntaxError(join_with_spaces(arguments)));
            }
            args.existence = Some(KeyExistence::XX);
            idx = idx + 1;
        } else if eq_ignore_case(token.as_str(), "get") {
            args.get = true;
            idx = idx + 1;
        } else if eq_ignore_case(token.as_str(), "ex") {
            if matches!(args.expiry, Some(KeyExpiry::PX(_))) {
                return Err(StorageError::CommandSyntaxError(join_with_spaces(arguments)));
            }
            if idx + 1 == arguments.len() {
                return Err(StorageError::CommandSyntaxError(join_with_spaces(arguments)));
            }
            let value = match crate::text::parse_u64_str(arguments[idx + 1].as_str()) {
                Some(v) => v,
                None => {
                    return Err(StorageError::CommandSyntaxError(join_with_spaces(arguments)));
                },
            };
            args.expiry = Some(KeyExpiry::EX(value));
            idx = idx + 2;
        } else if eq_ignore_case(token.as_str(), "px") {
            if matches!(args.expiry, Some(KeyExpiry::EX(_))) {
                return Err(StorageError::CommandSyntaxError(join_with_spaces(arguments)));
            }
            if idx + 1 == arguments.len() {
                return Err(StorageError::CommandSyntaxError(join_with_spaces(arguments)));
            }
            let value = match crate::text::parse_u64_str(arguments[idx + 1].as_str()) {
                Some(v) => v,
                None => {
                    return Err(StorageError::CommandSyntaxError(join_with_spaces(arguments)));
                },
            };
            args.expiry = Some(KeyExpiry::PX(value));
            idx = idx + 2;
        } else {
            return Err(StorageError::CommandSyntaxError(join_with_spaces(arguments)));
        }
    }
    Ok(args)
}

} // verus!
