//! Decisions of the on-chain verifier program.
use vstd::prelude::*;

use crate::account::{
    account_bytes, account_fields, is_canonical, law_account_fields_at, law_account_roundtrip,
    AccountFields, Falcon512PreparedPubkeyAccount,
};
use crate::bytes::{lies_at, locate, same_bytes};
use crate::codec::{pubkey_coeffs, u16_ints};
use crate::error::ProgramError;
use crate::instruction::Falcon512VerifyInstruction;
use crate::norm::prepared_coeffs;
use crate::prepared::Falcon512PreparedPubkey;
use crate::pubkey::is_pubkey;
use crate::signature::{law_prepared_agrees, verifies, verifies_prepared};
use crate::{FALCON_512_PREPARED_PUBKEY_ACCOUNT_LEN, FALCON_512_SIGNATURE_LEN};

verus! {

/// Error code of a signature that does not verify.
pub const ERR_VERIFY_FAILED: u32 = 3;

/// What the program reads of an account that it is handed.
pub struct AccountView<'a> {
    /// The program that owns the account.
    pub owner: [u8; 32],
    /// Whether the transaction may write to the account.
    pub is_writable: bool,
    /// The account's data, or why it could not be borrowed.
    pub data: Result<&'a [u8], ProgramError>,
}

/// The error that the program reports for one of the library.
pub open spec fn reported_error(err: ProgramError) -> ProgramError {
    match err {
        ProgramError::InvalidArgument => err,
        ProgramError::InvalidInstructionData => err,
        ProgramError::AccountBorrowFailed => err,
        ProgramError::ArithmeticOverflow => err,
        ProgramError::Custom(_) => err,
        _ => ProgramError::InvalidArgument,
    }
}

/// The prepared public key to verify against: the built-in one if the program
/// is handed no account, and otherwise the one that its single account stores.
/// `aligned` says whether the account's data can be read in place.
pub open spec fn selected_key(
    program_id: Seq<u8>,
    accounts: Seq<AccountView>,
    built_in: Seq<u16>,
    aligned: bool,
) -> Result<Seq<u16>, ProgramError> {
    if accounts.len() == 0 {
        Ok(built_in)
    } else if accounts.len() != 1 {
        Err(ProgramError::InvalidArgument)
    } else if accounts[0].owner@ != program_id {
        Err(ProgramError::IncorrectProgramId)
    } else if accounts[0].is_writable {
        Err(ProgramError::InvalidArgument)
    } else {
        match accounts[0].data {
            Err(e) => Err(e),
            Ok(data) => if data@.len() == FALCON_512_PREPARED_PUBKEY_ACCOUNT_LEN && aligned
                && is_canonical(account_fields(data@)) {
                Ok(account_fields(data@).prepared)
            } else {
                Err(ProgramError::InvalidArgument)
            },
        }
    }
}

/// What the program answers.
pub open spec fn answer(
    program_id: Seq<u8>,
    accounts: Seq<AccountView>,
    payload: Seq<u8>,
    built_in: Seq<u16>,
    aligned: bool,
) -> Result<(), ProgramError> {
    if payload.len() < FALCON_512_SIGNATURE_LEN {
        Err(ProgramError::InvalidInstructionData)
    } else {
        match selected_key(program_id, accounts, built_in, aligned) {
            Err(e) => Err(e),
            Ok(key) => if verifies_prepared(
                payload.take(FALCON_512_SIGNATURE_LEN as int),
                payload.skip(FALCON_512_SIGNATURE_LEN as int),
                key,
            ) {
                Ok(())
            } else {
                Err(ProgramError::Custom(ERR_VERIFY_FAILED))
            },
        }
    }
}

/// The program succeeds on exactly the payloads that hold a signature that
/// verifies against the selected key.
pub proof fn law_success_is_verified(
    program_id: Seq<u8>,
    accounts: Seq<AccountView>,
    payload: Seq<u8>,
    built_in: Seq<u16>,
    aligned: bool,
)
    ensures
        answer(program_id, accounts, payload, built_in, aligned) is Ok <==> payload.len()
            >= FALCON_512_SIGNATURE_LEN && (selected_key(
            program_id,
            accounts,
            built_in,
            aligned,
        ) matches Ok(key) && verifies_prepared(
            payload.take(FALCON_512_SIGNATURE_LEN as int),
            payload.skip(FALCON_512_SIGNATURE_LEN as int),
            key,
        )),
{
}

/// A payload too short for a signature is refused, whatever the accounts.
pub proof fn law_short_payload_refused(
    program_id: Seq<u8>,
    accounts: Seq<AccountView>,
    payload: Seq<u8>,
    built_in: Seq<u16>,
    aligned: bool,
)
    requires
        payload.len() < 666,
    ensures
        answer(program_id, accounts, payload, built_in, aligned) == Err::<(), ProgramError>(
            ProgramError::InvalidInstructionData,
        ),
{
}

/// Without an account, the built-in key decides alone.
pub proof fn law_built_in_key(
    program_id: Seq<u8>,
    accounts: Seq<AccountView>,
    payload: Seq<u8>,
    built_in: Seq<u16>,
    aligned: bool,
)
    requires
        payload.len() >= 666,
        accounts.len() == 0,
    ensures
        answer(program_id, accounts, payload, built_in, aligned) == if verifies_prepared(
            payload.take(666),
            payload.skip(666),
            built_in,
        ) {
            Ok::<(), ProgramError>(())
        } else {
            Err::<(), ProgramError>(ProgramError::Custom(3))
        },
{
}

/// More than one account is refused, whatever they are.
pub proof fn law_many_accounts_refused(
    program_id: Seq<u8>,
    accounts: Seq<AccountView>,
    payload: Seq<u8>,
    built_in: Seq<u16>,
    aligned: bool,
)
    requires
        payload.len() >= 666,
        accounts.len() >= 2,
    ensures
        answer(program_id, accounts, payload, built_in, aligned) == Err::<(), ProgramError>(
            ProgramError::InvalidArgument,
        ),
{
}

/// An account whose owner differs from the program in any byte is refused,
/// whatever it holds.
pub proof fn law_foreign_owner_refused(
    program_id: Seq<u8>,
    accounts: Seq<AccountView>,
    payload: Seq<u8>,
    built_in: Seq<u16>,
    aligned: bool,
)
    requires
        payload.len() >= 666,
        accounts.len() == 1,
        program_id.len() == 32,
        exists|i: int| 0 <= i < 32 && accounts[0].owner@[i] != #[trigger] program_id[i],
    ensures
        answer(program_id, accounts, payload, built_in, aligned) == Err::<(), ProgramError>(
            ProgramError::IncorrectProgramId,
        ),
{
}

/// A writable account of the program is refused.
pub proof fn law_writable_refused(
    program_id: Seq<u8>,
    accounts: Seq<AccountView>,
    payload: Seq<u8>,
    built_in: Seq<u16>,
    aligned: bool,
)
    requires
        payload.len() >= 666,
        accounts.len() == 1,
        program_id.len() == 32,
        forall|i: int| 0 <= i < 32 ==> accounts[0].owner@[i] == #[trigger] program_id[i],
        accounts[0].is_writable,
    ensures
        answer(program_id, accounts, payload, built_in, aligned) == Err::<(), ProgramError>(
            ProgramError::InvalidArgument,
        ),
{
    assert(accounts[0].owner@ =~= program_id);
}

/// An account whose data cannot be borrowed is answered with the reason.
pub proof fn law_borrow_error_kept(
    program_id: Seq<u8>,
    accounts: Seq<AccountView>,
    payload: Seq<u8>,
    built_in: Seq<u16>,
    aligned: bool,
)
    requires
        payload.len() >= 666,
        accounts.len() == 1,
        program_id.len() == 32,
        forall|i: int| 0 <= i < 32 ==> accounts[0].owner@[i] == #[trigger] program_id[i],
        !accounts[0].is_writable,
        accounts[0].data is Err,
    ensures
        answer(program_id, accounts, payload, built_in, aligned) == Err::<(), ProgramError>(
            accounts[0].data->Err_0,
        ),
{
    assert(accounts[0].owner@ =~= program_id);
}

/// An account is refused whose data have another length than 1036, are not
/// aligned, or do not start with `FALCPPK1` and the number one.
pub proof fn law_malformed_account_refused(
    program_id: Seq<u8>,
    accounts: Seq<AccountView>,
    payload: Seq<u8>,
    built_in: Seq<u16>,
    aligned: bool,
    d: Seq<u8>,
)
    requires
        payload.len() >= 666,
        accounts.len() == 1,
        program_id.len() == 32,
        forall|i: int| 0 <= i < 32 ==> accounts[0].owner@[i] == #[trigger] program_id[i],
        !accounts[0].is_writable,
        accounts[0].data is Ok,
        accounts[0].data->Ok_0@ == d,
        !(d.len() == 1036 && aligned && d[0] == 0x46 && d[1] == 0x41 && d[2] == 0x4c && d[3] == 0x43
            && d[4] == 0x50 && d[5] == 0x50 && d[6] == 0x4b && d[7] == 0x31 && d[8] == 1
            && d[9] == 0 && d[10] == 0 && d[11] == 0),
    ensures
        answer(program_id, accounts, payload, built_in, aligned) == Err::<(), ProgramError>(
            ProgramError::InvalidArgument,
        ),
{
    assert(accounts[0].owner@ =~= program_id);
    if d.len() == 1036 {
        law_account_fields_at(d, 0);
    }
}

/// With a well-formed readonly account of the program, the key decides whose
/// coefficients are the pairs of bytes from position 12 on, the low byte first.
pub proof fn law_stored_key(
    program_id: Seq<u8>,
    accounts: Seq<AccountView>,
    payload: Seq<u8>,
    built_in: Seq<u16>,
    aligned: bool,
    d: Seq<u8>,
    key: Seq<u16>,
)
    requires
        payload.len() >= 666,
        accounts.len() == 1,
        program_id.len() == 32,
        forall|i: int| 0 <= i < 32 ==> accounts[0].owner@[i] == #[trigger] program_id[i],
        !accounts[0].is_writable,
        accounts[0].data is Ok,
        accounts[0].data->Ok_0@ == d,
        d.len() == 1036,
        aligned,
        d[0] == 0x46 && d[1] == 0x41 && d[2] == 0x4c && d[3] == 0x43 && d[4] == 0x50 && d[5] == 0x50
            && d[6] == 0x4b && d[7] == 0x31 && d[8] == 1 && d[9] == 0 && d[10] == 0 && d[11] == 0,
        key.len() == 512,
        forall|i: int| 0 <= i < 512 ==> #[trigger] key[i] == d[12 + 2 * i] + 256 * d[13 + 2 * i],
    ensures
        answer(program_id, accounts, payload, built_in, aligned) == if verifies_prepared(
            payload.take(666),
            payload.skip(666),
            key,
        ) {
            Ok::<(), ProgramError>(())
        } else {
            Err::<(), ProgramError>(ProgramError::Custom(3))
        },
{
    assert(accounts[0].owner@ =~= program_id);
    law_account_fields_at(d, 0);
    let stored = account_fields(d).prepared;
    assert forall|i: int| 0 <= i < 512 implies stored[i] == #[trigger] key[i] by {
        law_account_fields_at(d, i);
    }
    assert(stored =~= key);
}

/// Five kinds of error are reported as they are, and every other one as an
/// invalid argument.
pub proof fn law_reported_error(err: ProgramError, code: u32)
    ensures
        reported_error(ProgramError::Custom(code)) == ProgramError::Custom(code),
        err == ProgramError::InvalidArgument || err == ProgramError::InvalidInstructionData || err
            == ProgramError::AccountBorrowFailed || err == ProgramError::ArithmeticOverflow
            ==> reported_error(err) == err,
        err != ProgramError::InvalidInstructionData && err != ProgramError::AccountBorrowFailed
            && err != ProgramError::ArithmeticOverflow && !(err is Custom) ==> reported_error(err)
            == ProgramError::InvalidArgument,
{
}

/// Prepare once, verify many times: with the prepared form of a public key
/// stored in a readonly account of the program, the program accepts exactly the
/// payloads whose signature verifies against the public key itself.
pub proof fn law_stored_key_verifies(
    program_id: Seq<u8>,
    account: AccountView,
    payload: Seq<u8>,
    built_in: Seq<u16>,
    pubkey: Seq<u8>,
    stored: AccountFields,
)
    requires
        account.owner@ == program_id,
        !account.is_writable,
        account.data matches Ok(data) && data@ == account_bytes(stored),
        is_canonical(stored),
        is_pubkey(pubkey),
        stored.prepared.len() == 512,
        u16_ints(stored.prepared) == prepared_coeffs(pubkey_coeffs(pubkey.skip(1))),
        payload.len() >= FALCON_512_SIGNATURE_LEN,
    ensures
        answer(program_id, seq![account], payload, built_in, true) == if verifies(
            payload.take(FALCON_512_SIGNATURE_LEN as int),
            payload.skip(FALCON_512_SIGNATURE_LEN as int),
            pubkey,
        ) {
            Ok::<(), ProgramError>(())
        } else {
            Err::<(), ProgramError>(ProgramError::Custom(ERR_VERIFY_FAILED))
        },
{
    law_account_roundtrip(stored);
    law_prepared_agrees(
        payload.take(FALCON_512_SIGNATURE_LEN as int),
        payload.skip(FALCON_512_SIGNATURE_LEN as int),
        pubkey,
        stored.prepared,
    );
}

/// Maps an error of the library to the one that the program reports.
pub fn map_falcon_error(err: ProgramError) -> (r: ProgramError)
    ensures
        r == reported_error(err),
{
    match err {
        ProgramError::InvalidArgument => ProgramError::InvalidArgument,
        ProgramError::InvalidInstructionData => ProgramError::InvalidInstructionData,
        ProgramError::AccountBorrowFailed => ProgramError::AccountBorrowFailed,
        ProgramError::ArithmeticOverflow => ProgramError::ArithmeticOverflow,
        ProgramError::Custom(code) => ProgramError::Custom(code),
        _ => ProgramError::InvalidArgument,
    }
}

/// Verifies the signature and message of a payload: against the built-in key if
/// there is no account, or against the key that one readonly account of this
/// program stores.
pub fn process_instruction(
    program_id: &[u8; 32],
    accounts: &[AccountView],
    instruction_data: &[u8],
    built_in: &Falcon512PreparedPubkey,
) -> (r: Result<(), ProgramError>)
    ensures
        exists|aligned: bool|
            r == #[trigger] answer(
                program_id@,
                accounts@,
                instruction_data@,
                built_in@,
                aligned,
            ),
        exists|address: usize|
            (accounts@.len() == 1 && accounts@[0].data is Ok ==> #[trigger] lies_at(
                accounts@[0].data->Ok_0,
                address,
            )) && r == answer(
                program_id@,
                accounts@,
                instruction_data@,
                built_in@,
                address % 4 == 0,
            ),
{
    let address: usize = if accounts.len() == 1 {
        match accounts[0].data {
            Ok(data) => locate(data),
            Err(_) => 0,
        }
    } else {
        0
    };
    let r = process_instruction_at(program_id, accounts, instruction_data, built_in, address);
    proof {
        let here = lies_at(accounts@[0].data->Ok_0, address);
        assert((accounts@.len() == 1 && accounts@[0].data is Ok ==> here) && r == answer(
            program_id@,
            accounts@,
            instruction_data@,
            built_in@,
            address % 4 == 0,
        ));
    }
    r
}

/// `process_instruction` for a single account whose data lie at `address`.
pub fn process_instruction_at(
    program_id: &[u8; 32],
    accounts: &[AccountView],
    instruction_data: &[u8],
    built_in: &Falcon512PreparedPubkey,
    address: usize,
) -> (r: Result<(), ProgramError>)
    ensures
        r == answer(
            program_id@,
            accounts@,
            instruction_data@,
            built_in@,
            address % 4 == 0,
        ),
{
    let instruction = match Falcon512VerifyInstruction::parse(instruction_data) {
        Ok(instruction) => instruction,
        Err(e) => return Err(map_falcon_error(e)),
    };
    let verified = if accounts.len() == 0 {
        instruction.signature().verify_with_prepared(instruction.message(), built_in)
    } else {
        if accounts.len() != 1 {
            return Err(ProgramError::InvalidArgument);
        }
        let view = &accounts[0];
        if !same_bytes(&view.owner, program_id) {
            return Err(ProgramError::IncorrectProgramId);
        }
        if view.is_writable {
            return Err(ProgramError::InvalidArgument);
        }
        let data = match view.data {
            Ok(data) => data,
            Err(e) => return Err(e),
        };
        let account = match Falcon512PreparedPubkeyAccount::try_from_slice_at(data, address) {
            Ok(account) => account,
            Err(e) => return Err(map_falcon_error(e)),
        };
        instruction.signature().verify_with_prepared(
            instruction.message(),
            account.prepared_pubkey(),
        )
    };
    if verified {
        Ok(())
    } else {
        Err(ProgramError::Custom(ERR_VERIFY_FAILED))
    }
}

} // verus!
