//! A request as the engine takes it: checked once, where it comes in.

use crate::codec::opt_view;
use crate::names::{name_list, DomainSet};
use crate::reconciler::{
    apply, remove_change, remove_content, set_change, set_content, Edit, Mode,
};
use crate::store::Failure;
use crate::text::views;
use vstd::prelude::*;

verus! {

/// A request to set the names of a region or to take names away from it.
pub struct Request {
    /// The region that is meant; `None` means the first block of the file, whatever
    /// region it names.
    pub region: Option<Vec<u8>>,
    /// The names, in lower case and without repeats.
    pub names: DomainSet,
    pub mode: Mode,
    /// Whether the file as it was is to be copied before it is written.
    pub backup: bool,
}

/// What `remove` asks for: names are taken away where it is given and `true`, and set
/// else.
pub open spec fn mode_of(remove: Option<bool>) -> Mode {
    if remove == Some(true) {
        Mode::RemoveNames
    } else {
        Mode::SetNames
    }
}

/// Whether a backup is asked for: where `backup` is given and `true`.
pub open spec fn backup_of(backup: Option<bool>) -> bool {
    backup == Some(true)
}

/// Checks a request as it comes in and puts it into the form that the engine takes.
///
/// The list of names is what a request must hold: without it the request is turned
/// down. The names are put in lower case and in order, and repeats go.
pub fn build_request(
    names: Option<&Vec<Vec<u8>>>,
    region: Option<Vec<u8>>,
    remove: Option<bool>,
    backup: Option<bool>,
) -> (r: Result<Request, Failure>)
    ensures
        names is None <==> r == Err::<Request, Failure>(Failure::InvalidRequest),
        names matches Some(list) ==> (r matches Ok(request) && {
            &&& request.names.wf()
            &&& request.names@ == name_list(views(list@))
            &&& request.region == region
            &&& request.mode == mode_of(remove)
            &&& request.backup == backup_of(backup)
        }),
{
    match names {
        None => Err(Failure::InvalidRequest),
        Some(list) => {
            let mode = match remove {
                Some(true) => Mode::RemoveNames,
                _ => Mode::SetNames,
            };
            let backup = match backup {
                Some(true) => true,
                _ => false,
            };
            Ok(Request { region, names: DomainSet::from_names(list), mode, backup })
        },
    }
}

/// Carries out a request on the text of the hosts file.
pub fn carry_out(text: &[u8], request: &Request) -> (r: Edit)
    requires
        request.names.wf(),
    ensures
        request.mode == Mode::SetNames ==> r.change == set_change(
            text@,
            opt_view(request.region),
            request.names@,
        ) && opt_view(r.content) == set_content(text@, opt_view(request.region), request.names@),
        request.mode == Mode::RemoveNames ==> r.change == remove_change(
            text@,
            opt_view(request.region),
            request.names@,
        ) && opt_view(r.content) == remove_content(
            text@,
            opt_view(request.region),
            request.names@,
        ),
{
    let region: Option<&[u8]> = match &request.region {
        Some(tag) => Some(tag.as_slice()),
        None => None,
    };
    apply(text, region, &request.names, request.mode)
}

} // verus!
