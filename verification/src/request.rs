//! The HTTP adapter seam: request descriptions and the pending-request
//! store.
//!
//! The engine never performs a request itself.  `send` files the finished
//! description in a [`Requests`] store and returns an external promise whose
//! announcement carries the description's position; the host picks the
//! description up, performs the transfer however it likes, and completes the
//! promise through the command queue.

use crate::promise::Promise;
use crate::thunk::{Continuation, Transform};
use vstd::prelude::*;

verus! {

/// The task kind under which request promises announce themselves.
pub const HTTP_TASK: u64 = 2;

/// One request description: method, target and payload, all plain values.
pub struct Request {
    pub method: String,
    pub url: String,
    pub headers: Vec<(String, String)>,
    pub body: Vec<u8>,
}

impl Request {
    /// A GET request with an empty target.
    pub fn new() -> (r: Request)
        ensures
            r.method@ == "GET"@,
            r.url@ == ""@,
            r.headers@ == Seq::<(String, String)>::empty(),
            r.body@ == Seq::<u8>::empty(),
    {
        Request { method: "GET".to_string(), url: "".to_string(), headers: Vec::new(), body: Vec::new() }
    }

    /// Set the target.
    pub fn url(self, url: String) -> (r: Request)
        ensures
            r.url == url,
            r.method == self.method,
            r.headers == self.headers,
            r.body == self.body,
    {
        Request { url, ..self }
    }

    /// Set the method.
    pub fn method(self, method: String) -> (r: Request)
        ensures
            r.method == method,
            r.url == self.url,
            r.headers == self.headers,
            r.body == self.body,
    {
        Request { method, ..self }
    }

    /// Append one header.
    pub fn header(self, key: String, value: String) -> (r: Request)
        ensures
            r.headers@ == self.headers@.push((key, value)),
            r.method == self.method,
            r.url == self.url,
            r.body == self.body,
    {
        let mut headers = self.headers;
        headers.push((key, value));
        Request { headers, ..self }
    }

    /// Set the payload.
    pub fn body(self, body: Vec<u8>) -> (r: Request)
        ensures
            r.body == body,
            r.method == self.method,
            r.url == self.url,
            r.headers == self.headers,
    {
        Request { body, ..self }
    }

    /// File the description and build the promise that its completion will
    /// resolve.
    pub fn send<F: Continuation<M>, M: Transform>(self, store: &mut Requests) -> (p: Promise<F, M>)
        requires
            old(store)@.len() < u64::MAX,
        ensures
            final(store)@ == old(store)@.push(self),
            p == Promise::<F, M>::External(HTTP_TASK, old(store)@.len() as u64),
    {
        store.push(self)
    }
}

/// A GET request for `url`.
pub fn get(url: String) -> (r: Request)
    ensures
        r.method@ == "GET"@,
        r.url == url,
        r.headers@ == Seq::<(String, String)>::empty(),
        r.body@ == Seq::<u8>::empty(),
{
    Request::new().url(url)
}

/// A POST request for `url` carrying `body`.
pub fn post(url: String, body: Vec<u8>) -> (r: Request)
    ensures
        r.method@ == "POST"@,
        r.url == url,
        r.headers@ == Seq::<(String, String)>::empty(),
        r.body == body,
{
    Request::new().method("POST".to_string()).url(url).body(body)
}

/// The descriptions of requests handed to the host, in filing order; the
/// announcement of request promise `i` carries `i` as its argument.
pub struct Requests {
    items: Vec<Request>,
}

impl Requests {
    /// The filed descriptions.
    pub closed spec fn view(self) -> Seq<Request> {
        self.items@
    }

    /// An empty store.
    pub fn new() -> (s: Requests)
        ensures
            s@ == Seq::<Request>::empty(),
    {
        Requests { items: Vec::new() }
    }

    /// File one description and build its promise.
    pub fn push<F: Continuation<M>, M: Transform>(&mut self, r: Request) -> (p: Promise<F, M>)
        requires
            old(self)@.len() < u64::MAX,
        ensures
            final(self)@ == old(self)@.push(r),
            p == Promise::<F, M>::External(HTTP_TASK, old(self)@.len() as u64),
    {
        let idx = self.items.len() as u64;
        self.items.push(r);
        Promise::External(HTTP_TASK, idx)
    }

    /// How many descriptions have been filed.
    pub fn len(&self) -> (n: usize)
        ensures
            n == self@.len(),
    {
        self.items.len()
    }

    /// Read one filed description.
    pub fn get(&self, i: usize) -> (r: Option<&Request>)
        ensures
            match r {
                Some(r) => i < self@.len() && *r == self@[i as int],
                None => i >= self@.len(),
            },
    {
        if i < self.items.len() {
            Some(&self.items[i])
        } else {
            None
        }
    }
}

} // verus!
