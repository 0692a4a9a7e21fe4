//! The worker's loop, as decisions: what one request comes to before the
//! driver sees it. Reading the pipe, the driver's own work and writing the
//! reply are the loop's.

use vstd::prelude::*;

use crate::worker::Request;

verus! {

/// What one request comes to.
pub enum Serve {
    /// A request before `Config`: there is no driver to give it to, and
    /// the loop ends with the data called invalid.
    Refuse,
    /// `Config`: a driver is made for it, and the reply reports the
    /// sandbox with this.
    Configure(Result<String, String>),
    /// Anything else, for the driver there is.
    Dispatch,
}

/// [`Serve`] as values.
pub enum ServeModel {
    Refuse,
    Configure(Result<Seq<char>, Seq<char>>),
    Dispatch,
}

pub open spec fn report_view(r: Result<String, String>) -> Result<Seq<char>, Seq<char>> {
    match r {
        Ok(s) => Ok(s@),
        Err(s) => Err(s@),
    }
}

impl View for Serve {
    type V = ServeModel;

    open spec fn view(&self) -> ServeModel {
        match self {
            Serve::Refuse => ServeModel::Refuse,
            Serve::Configure(r) => ServeModel::Configure(report_view(*r)),
            Serve::Dispatch => ServeModel::Dispatch,
        }
    }
}

/// The loop between requests: whether a driver was made, and the sandbox
/// report while it has not been given yet.
pub struct Serving {
    configured: bool,
    sandbox: Option<Result<String, String>>,
}

/// [`Serving`] as values.
pub struct ServingModel {
    pub configured: bool,
    pub sandbox: Option<Result<Seq<char>, Seq<char>>>,
}

impl View for Serving {
    type V = ServingModel;

    closed spec fn view(&self) -> ServingModel {
        ServingModel {
            configured: self.configured,
            sandbox: match self.sandbox {
                Some(r) => Some(report_view(r)),
                None => None,
            },
        }
    }
}

/// What a second report of the sandbox says.
pub open spec fn reported_already() -> Seq<char> {
    "reported already"@
}

/// One step of the loop: a `Config` makes a driver and takes the sandbox
/// report, which is there the first time only; anything else before the
/// first `Config` ends the loop; anything after it is the driver's.
pub open spec fn serve_next(m: ServingModel, config: bool) -> (ServeModel, ServingModel) {
    if config {
        (
            ServeModel::Configure(
                match m.sandbox {
                    Some(r) => r,
                    None => Err(reported_already()),
                },
            ),
            ServingModel { configured: true, sandbox: None },
        )
    } else if !m.configured {
        (ServeModel::Refuse, m)
    } else {
        (ServeModel::Dispatch, m)
    }
}

impl Serving {
    /// A loop that has read nothing yet, with the sandbox's report to give.
    pub fn new(sandbox: Result<String, String>) -> (r: Serving)
        ensures
            r@ == (ServingModel { configured: false, sandbox: Some(report_view(sandbox)) }),
    {
        Serving { configured: false, sandbox: Some(sandbox) }
    }

    /// What `request` comes to, and the loop after it.
    pub fn step(&mut self, request: &Request) -> (r: Serve)
        ensures
            (r@, final(self)@) == serve_next(old(self)@, request matches Request::Config { .. }),
    {
        if let Request::Config { .. } = request {
            let report = match self.sandbox.take() {
                Some(r) => r,
                None => Err("reported already".to_string()),
            };
            self.configured = true;
            proof {
                reveal_strlit("reported already");
            }
            Serve::Configure(report)
        } else if !self.configured {
            Serve::Refuse
        } else {
            Serve::Dispatch
        }
    }
}

/// The sandbox is reported once: whatever the loop has seen, a `Config`
/// after a `Config` reports that it was reported already.
pub proof fn lemma_sandbox_reported_once(m: ServingModel)
    ensures
        serve_next(serve_next(m, true).1, true).0 == ServeModel::Configure(Err(reported_already())),
{
}

/// Nothing reaches a driver before there is one: a loop that has not seen
/// a `Config` refuses every other request, and stays as it was.
pub proof fn lemma_nothing_before_config(sandbox: Result<Seq<char>, Seq<char>>)
    ensures
        serve_next(ServingModel { configured: false, sandbox: Some(sandbox) }, false) == (
            ServeModel::Refuse,
            ServingModel { configured: false, sandbox: Some(sandbox) },
        ),
{
}

} // verus!
