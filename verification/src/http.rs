//! The server: what is done with each accepted connection.
//!
//! Nothing here touches a socket. Whoever owns the listener hands over what
//! `accept` returned, and whoever owns a connection hands over the bytes that
//! were read from it and writes the bytes that come back.

use crate::pool::{JobOutcome, PoolView, WorkerPool};
use crate::request::{
    is_request, law_read_request_is_well_formed, parse_request, Request, RequestView,
};
use crate::response::{bad_request, serialize, Response, ResponseView};
use std::sync::Arc;
use vstd::prelude::*;

verus! {

/// The number of workers of a server's pool, unless another is asked for.
pub const WORKERS: usize = 8;

/// What a server is started with.
#[derive(Clone, Copy, Debug, PartialEq, Eq, Structural)]
pub struct Config {
    /// The TCP port to listen on.
    pub port: u16,
}

/// What answers the requests. One application is shared by all workers, so
/// it is only ever borrowed.
pub trait HttpApplication: Send + Sync {
    /// The responses that the application may give to a request. An
    /// application that states nothing allows every response.
    open spec fn responds(&self, request: RequestView, response: ResponseView) -> bool {
        true
    }

    /// Answers one request. The request is one that was read from a
    /// connection: an application is never handed a malformed one.
    fn handle_request(&self, req: Request) -> (response: Response)
        requires
            is_request(req@),
        ensures
            self.responds(req@, response@),
    ;
}

/// `written` is what a connection is answered with when `input` was read
/// from it: the serialized response of the application to the request that
/// `input` holds, or, where it holds none, the 400 response made of `page`.
pub open spec fn answers<T: HttpApplication>(
    app: T,
    input: Seq<u8>,
    page: Seq<u8>,
    written: Seq<u8>,
) -> bool {
    match parse_request(input) {
        Ok(request) => exists|response: ResponseView| #[trigger]
            app.responds(request, response) && written == serialize(response),
        Err(_) => written == serialize(bad_request(page)),
    }
}

/// The connections among the outcomes of `accept`, in order: a failed
/// `accept` yields none.
pub open spec fn accepted<C>(incoming: Seq<Option<C>>) -> Seq<C>
    decreases incoming.len(),
{
    if incoming.len() == 0 {
        Seq::empty()
    } else {
        let earlier = accepted(incoming.drop_last());
        match incoming.last() {
            Some(connection) => earlier.push(connection),
            None => earlier,
        }
    }
}

/// Handles one connection: `input` is what was read from it, the result is
/// what to write to it. The application sees the request only if `input`
/// holds one; otherwise the answer is the 400 response with
/// `bad_request_page` as its body.
pub fn handle_connection<T: HttpApplication>(
    app: &Arc<T>,
    input: &[u8],
    bad_request_page: &[u8],
) -> (written: Vec<u8>)
    ensures
        answers(**app, input@, bad_request_page@, written@),
{
    match Request::parse(input) {
        Ok(req) => {
            proof {
                law_read_request_is_well_formed(input@);
            }
            let response = app.handle_request(req);
            response.serialize()
        },
        Err(_) => {
            let response = Response::bad_request(bad_request_page);
            response.serialize()
        },
    }
}

/// A server as plain values.
pub struct ServerView<T, C> {
    pub port: u16,
    pub pool: PoolView<C>,
    pub application: T,
    pub bad_request_page: Seq<u8>,
}

/// A server for connections of type `C`: the port it listens on, the pool
/// that its connections are handed to, the application, and the page it
/// sends when a request cannot be read.
pub struct HttpServer<T: HttpApplication, C> {
    port: u16,
    pool: WorkerPool<C>,
    application: Arc<T>,
    bad_request_page: Vec<u8>,
}

impl<T: HttpApplication, C> View for HttpServer<T, C> {
    type V = ServerView<T, C>;

    closed spec fn view(&self) -> ServerView<T, C> {
        ServerView {
            port: self.port,
            pool: self.pool@,
            application: *self.application,
            bad_request_page: self.bad_request_page@,
        }
    }
}

impl<T: HttpApplication, C> HttpServer<T, C> {
    /// The pool is well formed.
    pub closed spec fn wf(&self) -> bool {
        self.pool.wf()
    }

    /// A server for `config.port` with `WORKERS` idle workers and no
    /// connection waiting.
    pub fn new(config: &Config, application: T, bad_request_page: Vec<u8>) -> (server: Self)
        ensures
            server.wf(),
            server@ == (ServerView {
                port: config.port,
                pool: PoolView {
                    pending: Seq::<C>::empty(),
                    running: Seq::new(WORKERS as nat, |w: int| None::<C>),
                },
                application,
                bad_request_page: bad_request_page@,
            }),
    {
        Self::with_workers(config, application, bad_request_page, WORKERS)
    }

    /// A server for `config.port` with `workers` idle workers and no
    /// connection waiting.
    pub fn with_workers(
        config: &Config,
        application: T,
        bad_request_page: Vec<u8>,
        workers: usize,
    ) -> (server: Self)
        requires
            workers > 0,
        ensures
            server.wf(),
            server@ == (ServerView {
                port: config.port,
                pool: PoolView {
                    pending: Seq::<C>::empty(),
                    running: Seq::new(workers as nat, |w: int| None::<C>),
                },
                application,
                bad_request_page: bad_request_page@,
            }),
    {
        let pool = WorkerPool::new(workers);
        HttpServer { port: config.port, pool, application: Arc::new(application), bad_request_page }
    }

    /// The number of workers.
    pub fn workers(&self) -> (n: usize)
        requires
            self.wf(),
        ensures
            n == self@.pool.size(),
            n > 0,
    {
        self.pool.size()
    }

    /// The address to listen on: every interface, at the configured port.
    pub fn address(&self) -> (at: ([u8; 4], u16))
        ensures
            at.0@ == seq![0u8, 0u8, 0u8, 0u8],
            at.1 == self@.port,
    {
        ([0, 0, 0, 0], self.port)
    }

    /// The application, to be shared with a worker.
    pub fn application(&self) -> (app: Arc<T>)
        ensures
            *app == self@.application,
    {
        Arc::clone(&self.application)
    }

    /// The page that is sent when a request cannot be read.
    pub fn bad_request_page(&self) -> (page: &[u8])
        ensures
            page@ == self@.bad_request_page,
    {
        self.bad_request_page.as_slice()
    }

    /// The number of connections that wait for a worker.
    pub fn pending(&self) -> (n: usize)
        ensures
            n == self@.pool.pending.len(),
    {
        self.pool.pending()
    }

    /// The number of connections that are being handled.
    pub fn active(&self) -> (n: usize)
        requires
            self.wf(),
        ensures
            n == self@.pool.active(),
            n <= self@.pool.size(),
    {
        self.pool.active()
    }

    /// The accept loop, for the outcomes of `accept` that are given: each
    /// connection is queued for the pool, in order, and each failure is
    /// passed over. Returns the number of connections queued. No worker is
    /// waited for.
    pub fn run(&mut self, incoming: Vec<Option<C>>) -> (queued: usize)
        requires
            old(self).wf(),
        ensures
            final(self).wf(),
            queued == accepted(incoming@).len(),
            final(self)@ == (ServerView {
                pool: PoolView {
                    pending: old(self)@.pool.pending + accepted(incoming@),
                    running: old(self)@.pool.running,
                },
                ..old(self)@
            }),
    {
        let ghost all = incoming@;
        let total = incoming.len();
        let mut queued: usize = 0;
        assert(all.take(0) =~= Seq::empty());
        assert(old(self)@.pool.pending + Seq::<C>::empty() =~= old(self)@.pool.pending);
        for outcome in it: incoming
            invariant
                it.seq() == all,
                all.len() == total,
                self.wf(),
                queued == accepted(all.take(it.index())).len(),
                queued <= it.index(),
                self@ == (ServerView {
                    pool: PoolView {
                        pending: old(self)@.pool.pending + accepted(all.take(it.index())),
                        running: old(self)@.pool.running,
                    },
                    ..old(self)@
                }),
        {
            proof {
                assert(all.take(it.index() + 1).drop_last() =~= all.take(it.index()));
            }
            match outcome {
                Some(connection) => {
                    let ghost before = self@.pool.pending;
                    self.pool.execute(connection);
                    queued += 1;
                    assert(before.push(connection) =~= old(self)@.pool.pending + accepted(
                        all.take(it.index() + 1),
                    ));
                },
                None => {},
            }
        }
        assert(all.take(all.len() as int) =~= all);
        queued
    }

    /// Hands the oldest waiting connection to `worker`, if the worker is
    /// idle and a connection waits.
    pub fn next_job(&mut self, worker: usize) -> (connection: Option<C>)
        requires
            old(self).wf(),
        ensures
            final(self).wf(),
            connection == old(self)@.pool.claimed(worker as int),
            final(self)@ == (ServerView {
                pool: old(self)@.pool.claim(worker as int),
                ..old(self)@
            }),
    {
        self.pool.claim(worker)
    }

    /// Takes note that `worker` is done with its connection, however that
    /// ended. Returns whether the worker had one.
    pub fn job_done(&mut self, worker: usize, outcome: JobOutcome) -> (was_busy: bool)
        requires
            old(self).wf(),
        ensures
            final(self).wf(),
            was_busy == old(self)@.pool.is_busy(worker as int),
            final(self)@ == (ServerView {
                pool: old(self)@.pool.finish(worker as int),
                ..old(self)@
            }),
    {
        self.pool.finish(worker, outcome)
    }
}

/// Serves the connections among `incoming`, one after the other: each entry
/// is an outcome of `accept`, a connection being given as the bytes that its
/// client sent. Returns what was written to each connection, in the order in
/// which they were accepted.
pub fn run<T: HttpApplication>(
    application: T,
    config: &Config,
    bad_request_page: Vec<u8>,
    incoming: Vec<Option<Vec<u8>>>,
) -> (written: Vec<Vec<u8>>)
    ensures
        written@.len() == accepted(incoming@).len(),
        forall|i: int|
            0 <= i < written@.len() ==> answers(
                application,
                accepted(incoming@)[i]@,
                bad_request_page@,
                #[trigger] written@[i]@,
            ),
{
    let ghost connections = accepted(incoming@);
    let ghost idle = Seq::new(WORKERS as nat, |w: int| None::<Vec<u8>>);
    let mut server: HttpServer<T, Vec<u8>> = HttpServer::new(config, application, bad_request_page);
    server.run(incoming);
    let app = server.application();
    let mut written: Vec<Vec<u8>> = Vec::new();
    let mut worker: usize = 0;
    assert(server@.pool.pending =~= connections.skip(0));
    while server.pending() > 0
        invariant
            server.wf(),
            worker < WORKERS,
            *app == application,
            server@.bad_request_page == bad_request_page@,
            idle == Seq::new(WORKERS as nat, |w: int| None::<Vec<u8>>),
            connections == accepted(incoming@),
            server@.pool.running == idle,
            written@.len() <= connections.len(),
            server@.pool.pending == connections.skip(written@.len() as int),
            forall|i: int|
                0 <= i < written@.len() ==> answers(
                    application,
                    connections[i]@,
                    bad_request_page@,
                    #[trigger] written@[i]@,
                ),
        decreases server@.pool.pending.len(),
    {
        let ghost done = written@.len() as int;
        assert(server@.pool.can_claim(worker as int));
        let connection = server.next_job(worker).unwrap();
        assert(connection == connections[done]);
        let reply = handle_connection(&app, connection.as_slice(), server.bad_request_page());
        written.push(reply);
        server.job_done(worker, JobOutcome::Completed);
        proof {
            assert(server@.pool.running =~= idle);
            assert(connections.skip(done).drop_first() =~= connections.skip(done + 1));
        }
        worker = if worker + 1 < WORKERS {
            worker + 1
        } else {
            0
        };
    }
    written
}

} // verus!
