//! The arguments of the `mmsg` calls that the bar makes.

use vstd::prelude::*;
use crate::text::{decimal, decimal_string, views};

verus! {

/// What the bar asks `mmsg` for.
#[derive(Clone, Copy, Debug, PartialEq, Eq, Structural)]
pub enum MmsgRequest {
    /// The tags of the outputs (`-g -t`).
    Tags,
    /// The keyboard layout (`-g -k`).
    Layout,
    /// Switch to the tag with this number (`-s -t <number>`).
    SwitchTo(u32),
}

/// The arguments for a request, on the named output when there is one.
pub open spec fn mmsg_arguments(output: Option<Seq<char>>, request: MmsgRequest) -> Seq<Seq<char>> {
    let target = match output {
        Some(o) => seq!["-o"@, o],
        None => Seq::<Seq<char>>::empty(),
    };
    target + match request {
        MmsgRequest::Tags => seq!["-g"@, "-t"@],
        MmsgRequest::Layout => seq!["-g"@, "-k"@],
        MmsgRequest::SwitchTo(n) => seq!["-s"@, "-t"@, decimal(n as nat)],
    }
}

/// The arguments of `mmsg` for a request.
pub fn mmsg_args(output: Option<&str>, request: MmsgRequest) -> (res: Vec<String>)
    ensures
        views(res@) == mmsg_arguments(
            match output {
                Some(o) => Some(o@),
                None => None,
            },
            request,
        ),
{
    let mut res: Vec<String> = Vec::new();
    if let Some(o) = output {
        res.push(String::from_str("-o"));
        res.push(String::from_str(o));
    }
    match request {
        MmsgRequest::Tags => {
            res.push(String::from_str("-g"));
            res.push(String::from_str("-t"));
        },
        MmsgRequest::Layout => {
            res.push(String::from_str("-g"));
            res.push(String::from_str("-k"));
        },
        MmsgRequest::SwitchTo(n) => {
            res.push(String::from_str("-s"));
            res.push(String::from_str("-t"));
            res.push(decimal_string(n));
        },
    }
    assert(views(res@) =~= mmsg_arguments(
        match output {
            Some(o) => Some(o@),
            None => None,
        },
        request,
    ));
    res
}


/// Naming an output only puts `-o <output>` in front: for every request,
/// the arguments on a named output are `-o`, the output, and then exactly
/// the arguments of the same request without one.
pub proof fn lemma_output_goes_first(o: Seq<char>, request: MmsgRequest)
    ensures
        mmsg_arguments(Some(o), request) == seq!["-o"@, o] + mmsg_arguments(None, request),
        mmsg_arguments(Some(o), request).len() == mmsg_arguments(None, request).len() + 2,
        mmsg_arguments(Some(o), request)[0] == "-o"@,
        mmsg_arguments(Some(o), request)[1] == o,
{
    assert(mmsg_arguments(None, request) =~= Seq::<Seq<char>>::empty() + mmsg_arguments(None, request));
}

/// What each request asks of `mmsg` when no output is named: `-g -t` for the
/// tags, `-g -k` for the layout, and `-s -t <n>` to switch to tag `n`, where
/// `<n>` reads back as `n`.
pub proof fn lemma_request_arguments(n: u32)
    ensures
        mmsg_arguments(None, MmsgRequest::Tags) == seq!["-g"@, "-t"@],
        mmsg_arguments(None, MmsgRequest::Layout) == seq!["-g"@, "-k"@],
        mmsg_arguments(None, MmsgRequest::SwitchTo(n)).len() == 3,
        mmsg_arguments(None, MmsgRequest::SwitchTo(n))[0] == "-s"@,
        mmsg_arguments(None, MmsgRequest::SwitchTo(n))[1] == "-t"@,
        crate::text::decimal_u32(mmsg_arguments(None, MmsgRequest::SwitchTo(n))[2]) == Some(n),
{
    assert(mmsg_arguments(None, MmsgRequest::Tags) =~= seq!["-g"@, "-t"@]);
    assert(mmsg_arguments(None, MmsgRequest::Layout) =~= seq!["-g"@, "-k"@]);
    assert(mmsg_arguments(None, MmsgRequest::SwitchTo(n)) =~= seq!["-s"@, "-t"@, decimal(n as nat)]);
    crate::text::lemma_decimal_parses_back(n);
}

} // verus!
