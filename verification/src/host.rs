//! Trusted boundary to the host runtime: the clock, storage-unit access,
//! unit allocation with program signing, and identity comparison. Each
//! item here makes one host call; everything decided on the results is
//! verified elsewhere.

use vstd::prelude::*;

use solana_program::account_info::AccountInfo;
use solana_program::pubkey::Pubkey;

use crate::errors::PollProgramError;

verus! {

#[verifier::external_type_specification]
#[verifier::external_body]
pub struct ExPubkey(Pubkey);

#[verifier::external_type_specification]
#[verifier::external_body]
pub struct ExAccountInfo<'a>(AccountInfo<'a>);

/// Relies on the host clock (`Clock::get`): the current time as a decimal
/// string, or `None` where no clock is available. The value is ambient,
/// so nothing is promised of it.
#[verifier::external_body]
pub(crate) fn current_timestamp() -> (r: Option<String>) {
    match <solana_program::clock::Clock as solana_program::sysvar::Sysvar>::get() {
        Ok(ck) => Some(ck.unix_timestamp.to_string()),
        Err(_) => None,
    }
}

/// Relies on the `AccountInfo::owner` field: the identity of the program
/// recorded as the unit's controller.
#[verifier::external_body]
pub(crate) fn account_owner<'a>(account: &AccountInfo<'a>) -> (r: &'a Pubkey) {
    account.owner
}

/// Relies on `Pubkey`'s derived `PartialEq`: byte-for-byte equality of
/// the two identities.
#[verifier::external_body]
pub(crate) fn pubkey_eq(a: &Pubkey, b: &Pubkey) -> (r: bool)
    ensures
        r == (*a == *b),
{
    a == b
}

/// Relies on `AccountInfo::try_borrow_data`: a copy of the unit's stored
/// bytes, or `None` while the unit is borrowed for writing. What is
/// stored is ambient, so nothing is promised of the contents.
#[verifier::external_body]
pub(crate) fn read_unit_data<'a>(account: &AccountInfo<'a>) -> (r: Option<Vec<u8>>) {
    match account.try_borrow_data() {
        Ok(data) => Some(data.to_vec()),
        Err(_) => None,
    }
}

/// Relies on `AccountInfo::try_borrow_mut_data` and `io::Write` for
/// `&mut [u8]`: writes the bytes at the front of the unit's storage,
/// failing if the unit is borrowed or its storage is too small.
#[verifier::external_body]
pub(crate) fn write_unit_data<'a>(account: &AccountInfo<'a>, bytes: &Vec<u8>) -> (r: Result<
    (),
    PollProgramError,
>) {
    match account.try_borrow_mut_data() {
        Ok(mut data) => std::io::Write::write_all(&mut &mut data[..], bytes).map_err(
            |_| PollProgramError::InvalidAccountData,
        ),
        Err(_) => Err(PollProgramError::InvalidAccountData),
    }
}

/// Relies on `system_instruction::create_account` and `invoke_signed`:
/// asks the host to allocate the target unit with the given space and
/// balance under the given program, signing with the poll id and its
/// bump as derivation seeds. Whether the host grants it is ambient.
#[verifier::external_body]
pub(crate) fn allocate_unit<'a>(
    payer: &AccountInfo<'a>,
    target: &AccountInfo<'a>,
    accounts: &[AccountInfo<'a>],
    lamports: u64,
    space: u64,
    owner: &Pubkey,
    seed: &String,
    bump: u8,
) -> (r: Result<(), PollProgramError>) {
    let ix = solana_program::system_instruction::create_account(
        payer.key,
        target.key,
        lamports,
        space,
        owner,
    );
    solana_program::program::invoke_signed(&ix, accounts, &[&[seed.as_bytes(), &[bump]]]).map_err(
        |_| PollProgramError::InvalidAccountData,
    )
}

} // verus!
