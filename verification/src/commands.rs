//! The decisions behind the commands the user interface calls: what an
//! entered address means, what an answer to a prompt becomes, and whether a
//! selection can be sent.
use vstd::prelude::*;

use crate::discovery::{IpAddress, DEFAULT_TRANSFER_PORT};
use crate::error::{Error, Result};
use crate::text::{push_all, push_decimal, push_str, string_from_chars, string_of, trim, trim_str};
use crate::transfer::send::size_sum;
use crate::transfer::{FileEntry, OfferDecision};

verus! {

/// What a manually entered address means: an address with its port, a bare
/// address on the default transfer port, or an error the user can act on.
///
/// `as_socket_address` and `as_ip_address` are what the standard library's
/// parsers make of the trimmed text (`SocketAddr` and `IpAddr`), when they
/// accept it.
pub fn parse_target(
    input: &str,
    as_socket_address: Option<(IpAddress, u16)>,
    as_ip_address: Option<IpAddress>,
) -> (res: Result<(IpAddress, u16)>)
    ensures
        trim(input@).len() == 0 ==> (res matches Err(Error::Other(m)) && m@ == "enter an address"@),
        trim(input@).len() > 0 ==> match (as_socket_address, as_ip_address) {
            (Some(target), _) => res == Ok::<(IpAddress, u16), Error>(target),
            (None, Some(ip)) => res == Ok::<(IpAddress, u16), Error>((ip, DEFAULT_TRANSFER_PORT)),
            (None, None) => res matches Err(Error::Other(m)) && m@ == trim(input@)
                + " is not a valid address. Use an IP like 192.168.1.42, optionally with a port: 192.168.1.42:"@
                + crate::text::decimal(DEFAULT_TRANSFER_PORT as nat),
        },
{
    let trimmed = trim_str(input);
    if trimmed.len() == 0 {
        return Err(Error::Other(string_of("enter an address")));
    }
    match as_socket_address {
        Some(target) => Ok(target),
        None => match as_ip_address {
            Some(ip) => Ok((ip, DEFAULT_TRANSFER_PORT)),
            None => {
                let mut v: Vec<char> = Vec::new();
                push_all(&mut v, &trimmed);
                push_str(
                    &mut v,
                    " is not a valid address. Use an IP like 192.168.1.42, optionally with a port: 192.168.1.42:",
                );
                push_decimal(&mut v, DEFAULT_TRANSFER_PORT as u64);
                Err(Error::Other(string_from_chars(&v)))
            },
        },
    }
}

/// The user's answer to an incoming offer, as the waiting receiver gets it.
pub fn offer_response(accept: bool) -> (res: OfferDecision)
    ensures
        accept ==> res is Accept,
        !accept ==> (res matches OfferDecision::Decline(Some(m)) && m@
            == "declined on the other device"@),
{
    if accept {
        OfferDecision::Accept
    } else {
        OfferDecision::Decline(Some(string_of("declined on the other device")))
    }
}

/// A send needs at least one selected path.
pub fn require_selection(path_count: usize) -> (res: Result<()>)
    ensures
        path_count > 0 ==> res is Ok,
        path_count == 0 ==> (res matches Err(Error::Other(m)) && m@ == "no files were selected"@),
{
    if path_count == 0 {
        Err(Error::Other(string_of("no files were selected")))
    } else {
        Ok(())
    }
}

/// The total size of what a selection expanded to. A selection with no files
/// in it (empty folders, links only) cannot be sent, and neither can one
/// whose total does not fit in 64 bits.
pub fn selection_total(files: &Vec<FileEntry>) -> (res: Result<u64>)
    ensures
        files@.len() == 0 ==> (res matches Err(Error::Other(m)) && m@
            == "the selection contained no files to send"@),
        files@.len() > 0 && size_sum(files@, files@.len() as int) <= u64::MAX ==> res == Ok::<
            u64,
            Error,
        >(size_sum(files@, files@.len() as int) as u64),
        files@.len() > 0 && size_sum(files@, files@.len() as int) > u64::MAX ==> res matches Err(
            Error::Other(_),
        ),
{
    if files.len() == 0 {
        return Err(Error::Other(string_of("the selection contained no files to send")));
    }
    let mut total: u64 = 0;
    let mut i: usize = 0;
    while i < files.len()
        invariant
            i <= files@.len(),
            total == size_sum(files@, i as int),
        decreases files@.len() - i,
    {
        match total.checked_add(files[i].size) {
            Some(t) => {
                total = t;
            },
            None => {
                proof {
                    lemma_size_sum_grows(files@, i + 1, files@.len() as int);
                }
                return Err(Error::Other(string_of("the selection is too large to send")));
            },
        }
        i = i + 1;
    }
    Ok(total)
}

proof fn lemma_size_sum_grows(files: Seq<FileEntry>, a: int, b: int)
    requires
        0 <= a <= b,
    ensures
        size_sum(files, a) <= size_sum(files, b),
    decreases b - a,
{
    if a < b {
        lemma_size_sum_grows(files, a, b - 1);
    }
}

} // verus!
