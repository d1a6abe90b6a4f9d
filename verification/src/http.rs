//! The parts of an HTTP exchange with the server that compute: the
//! request text and the body of a reply.
use vstd::prelude::*;
use crate::text::{decode_utf8_lossy, utf8_lossy};

verus! {

/// Whether `n` occurs in `h` at position `p`.
pub open spec fn occurs_at(h: Seq<u8>, n: Seq<u8>, p: int) -> bool {
    0 <= p && p + n.len() <= h.len() && h.subrange(p, p + n.len()) == n
}

/// The first position at or after `p` where `n` occurs in `h`.
pub open spec fn find_from(h: Seq<u8>, n: Seq<u8>, p: int) -> Option<int>
    decreases h.len() + 1 - p,
{
    if p < 0 || p + n.len() > h.len() {
        None
    } else if h.subrange(p, p + n.len()) == n {
        Some(p)
    } else {
        find_from(h, n, p + 1)
    }
}

/// What the search from `p` finds is an occurrence at or after `p`, and
/// no earlier position from `p` on holds one; when it finds nothing, no
/// position from `p` on holds one.
pub proof fn lemma_find_from(h: Seq<u8>, n: Seq<u8>, p: int)
    requires
        0 <= p,
    ensures
        match find_from(h, n, p) {
            Some(q) => p <= q && occurs_at(h, n, q) && forall|x: int|
                p <= x < q ==> !occurs_at(h, n, x),
            None => forall|x: int| p <= x ==> !occurs_at(h, n, x),
        },
    decreases h.len() + 1 - p,
{
    if p + n.len() <= h.len() && h.subrange(p, p + n.len()) != n {
        lemma_find_from(h, n, p + 1);
    }
}

/// The first position where a non-empty `n` occurs in `h`.
pub open spec fn first_occurrence(h: Seq<u8>, n: Seq<u8>) -> Option<int> {
    if n.len() == 0 {
        None
    } else {
        find_from(h, n, 0)
    }
}

/// The bytes that end the header of an HTTP reply.
pub open spec fn header_end() -> Seq<u8> {
    seq![13u8, 10u8, 13u8, 10u8]
}

/// The body of an HTTP reply: what follows the first blank line, read as
/// UTF-8 (invalid sequences replaced); `None` when the reply has no blank
/// line.
pub open spec fn reply_body(raw: Seq<u8>) -> Option<Seq<char>> {
    match first_occurrence(raw, header_end()) {
        Some(p) => Some(utf8_lossy(raw.subrange(p + 4, raw.len() as int))),
        None => None,
    }
}

/// The request that asks for `path` on `host` and closes the connection
/// after the reply.
pub open spec fn get_request(host: Seq<char>, path: Seq<char>) -> Seq<char> {
    "GET "@ + path + " HTTP/1.1\r\nHost: "@ + host + "\r\nConnection: close\r\n\r\n"@
}

/// The position of the first occurrence of `needle` in `haystack`;
/// `None` for an empty needle or when it does not occur.
pub fn find_subslice(haystack: &[u8], needle: &[u8]) -> (r: Option<usize>)
    ensures
        match r {
            Some(p) => first_occurrence(haystack@, needle@) == Some(p as int),
            None => first_occurrence(haystack@, needle@) is None,
        },
{
    let n = needle.len();
    if n == 0 || haystack.len() < n {
        return None;
    }
    let mut p: usize = 0;
    while p <= haystack.len() - n
        invariant
            0 < n == needle@.len(),
            n <= haystack.len(),
            p <= haystack.len() - n + 1,
            find_from(haystack@, needle@, 0) == find_from(haystack@, needle@, p as int),
        decreases haystack.len() - n + 1 - p,
    {
        let mut k: usize = 0;
        while k < n && haystack[p + k] == needle[k]
            invariant
                0 < n == needle@.len(),
                p + n <= haystack.len(),
                k <= n,
                forall|i: int| 0 <= i < k ==> haystack@[p + i] == needle@[i],
            decreases n - k,
        {
            k += 1;
        }
        if k == n {
            assert(haystack@.subrange(p as int, p + n) =~= needle@);
            return Some(p);
        }
        assert(haystack@.subrange(p as int, p + n)[k as int] != needle@[k as int]);
        p += 1;
    }
    None
}

/// The body of an HTTP reply (see [`reply_body`]).
pub fn response_body(raw: &[u8]) -> (r: Option<String>)
    ensures
        match r {
            Some(s) => reply_body(raw@) == Some(s@),
            None => reply_body(raw@) is None,
        },
{
    let sep: Vec<u8> = vec![13u8, 10u8, 13u8, 10u8];
    assert(sep@ =~= header_end());
    match find_subslice(raw, sep.as_slice()) {
        Some(pos) => {
            proof {
                lemma_find_from(raw@, sep@, 0);
                assert(sep@.len() == 4);
                assert(find_from(raw@, sep@, 0) == Some(pos as int));
                assert(occurs_at(raw@, sep@, pos as int));
            }
            let total = raw.len();
            assert(pos + 4 <= total);
            let mut rest: Vec<u8> = Vec::new();
            let mut i = pos + 4;
            while i < raw.len()
                invariant
                    pos + 4 <= i <= raw.len(),
                    rest@ == raw@.subrange(pos + 4, i as int),
                decreases raw.len() - i,
            {
                rest.push(raw[i]);
                i += 1;
                assert(rest@ =~= raw@.subrange(pos + 4, i as int));
            }
            Some(decode_utf8_lossy(rest.as_slice()))
        },
        None => None,
    }
}

/// A search that finds `n` in `h` finds it at the same place in any
/// longer text that starts with `h`.
proof fn lemma_find_from_extend(h: Seq<u8>, t: Seq<u8>, n: Seq<u8>, p: int)
    requires
        0 <= p,
        find_from(h, n, p) is Some,
    ensures
        find_from(h + t, n, p) == find_from(h, n, p),
    decreases h.len() + 1 - p,
{
    lemma_find_from(h, n, p);
    assert((h + t).subrange(p, p + n.len()) =~= h.subrange(p, p + n.len())) by {
        lemma_find_from(h, n, p);
    }
    if h.subrange(p, p + n.len()) != n {
        lemma_find_from_extend(h, t, n, p + 1);
    }
}

/// The stream data in what the server has sent so far: what follows the
/// blank line that ends the reply's header, nothing while that line has
/// not come.
pub open spec fn stream_data(received: Seq<u8>) -> Seq<u8> {
    match first_occurrence(received, header_end()) {
        Some(p) => received.subrange(p + 4, received.len() as int),
        None => Seq::empty(),
    }
}

/// Drops the HTTP header at the start of a stream so that only the
/// transport stream reaches the queue.
pub struct HeaderSkipper {
    done: bool,
    pending: Vec<u8>,
    received: Ghost<Seq<u8>>,
}

impl HeaderSkipper {
    #[verifier::type_invariant]
    closed spec fn consistent(self) -> bool {
        if self.done {
            self.pending@.len() == 0 && first_occurrence(self.received@, header_end()) is Some
        } else {
            self.pending@ == self.received@ && first_occurrence(self.received@, header_end()) is None
        }
    }

    /// Everything fed so far.
    pub closed spec fn received(&self) -> Seq<u8> {
        self.received@
    }

    /// A skipper that has seen nothing yet.
    pub fn new() -> (r: HeaderSkipper)
        ensures
            r.received() == Seq::<u8>::empty(),
    {
        HeaderSkipper { done: false, pending: Vec::new(), received: Ghost(Seq::empty()) }
    }

    /// Takes the next bytes read from the socket and returns the stream
    /// data among them: together, the returned pieces are exactly what
    /// follows the header.
    pub fn feed(&mut self, chunk: &[u8]) -> (r: Vec<u8>)
        ensures
            final(self).received() == old(self).received() + chunk@,
            stream_data(final(self).received()) == stream_data(old(self).received()) + r@,
            r@.len() <= chunk@.len(),
    {
        proof {
            use_type_invariant(&*self);
        }
        let ghost before = self.received@;
        if self.done {
            let out = vstd::slice::slice_to_vec(chunk);
            proof {
                lemma_find_from_extend(before, chunk@, header_end(), 0);
                let p = first_occurrence(before, header_end())->0;
                lemma_find_from(before, header_end(), 0);
                assert((before + chunk@).subrange(p + 4, (before.len() + chunk@.len()) as int) =~= before.subrange(
                    p + 4,
                    before.len() as int,
                ) + chunk@);
            }
            *self = HeaderSkipper { done: true, pending: Vec::new(), received: Ghost(before + chunk@) };
            return out;
        }
        let mut pending = vstd::slice::slice_to_vec(self.pending.as_slice());
        let mut i: usize = 0;
        while i < chunk.len()
            invariant
                i <= chunk.len(),
                pending@ == before + chunk@.subrange(0, i as int),
            decreases chunk.len() - i,
        {
            pending.push(chunk[i]);
            i += 1;
            assert(pending@ =~= before + chunk@.subrange(0, i as int));
        }
        assert(chunk@.subrange(0, chunk.len() as int) =~= chunk@);
        let sep: Vec<u8> = vec![13u8, 10u8, 13u8, 10u8];
        assert(sep@ =~= header_end());
        match find_subslice(pending.as_slice(), sep.as_slice()) {
            Some(pos) => {
                proof {
                    lemma_find_from(pending@, sep@, 0);
                    lemma_find_from(before, sep@, 0);
                    assert(pos + 4 > before.len()) by {
                        if pos + 4 <= before.len() {
                            assert(before.subrange(pos as int, pos + 4) =~= pending@.subrange(
                                pos as int,
                                pos + 4,
                            ));
                            assert(occurs_at(before, sep@, pos as int));
                        }
                    }
                }
                let total = pending.len();
                let rest = vstd::slice::slice_to_vec(
                    vstd::slice::slice_subrange(pending.as_slice(), pos + 4, total),
                );
                *self = HeaderSkipper {
                    done: true,
                    pending: Vec::new(),
                    received: Ghost(before + chunk@),
                };
                assert(stream_data(before) =~= Seq::<u8>::empty());
                assert(Seq::<u8>::empty() + rest@ =~= rest@);
                rest
            },
            None => {
                *self = HeaderSkipper { done: false, pending, received: Ghost(before + chunk@) };
                assert(Seq::<u8>::empty() + Seq::<u8>::empty() =~= Seq::<u8>::empty());
                Vec::new()
            },
        }
    }
}

/// The request asks for exactly `path` on exactly `host`: it starts with
/// `GET `, then the path, then ` HTTP/1.1` and the `Host: ` header line
/// naming the host; so different paths or hosts give different requests.
pub proof fn lemma_get_request_names_path(host: Seq<char>, path: Seq<char>)
    ensures
        ({
            let r = get_request(host, path);
            let p = path.len() as int;
            let h = host.len() as int;
            &&& r.subrange(0, 4) == "GET "@
            &&& r.subrange(4, 4 + p) == path
            &&& r.subrange(4 + p, 4 + p + 17) == " HTTP/1.1\r\nHost: "@
            &&& r.subrange(4 + p + 17, 4 + p + 17 + h) == host
            &&& r.subrange(4 + p + 17 + h, r.len() as int) == "\r\nConnection: close\r\n\r\n"@
        }),
        forall|host2: Seq<char>, path2: Seq<char>|
            #[trigger] get_request(host2, path2) == get_request(host, path) && path2.len()
                == path.len() ==> path2 == path && host2 == host,
{
    reveal_strlit("GET ");
    reveal_strlit(" HTTP/1.1\r\nHost: ");
    reveal_strlit("\r\nConnection: close\r\n\r\n");
    let r = get_request(host, path);
    let p = path.len() as int;
    let h = host.len() as int;
    assert(r.subrange(0, 4) =~= "GET "@);
    assert(r.subrange(4, 4 + p) =~= path);
    assert(r.subrange(4 + p, 4 + p + 17) =~= " HTTP/1.1\r\nHost: "@);
    assert(r.subrange(4 + p + 17, 4 + p + 17 + h) =~= host);
    assert(r.subrange(4 + p + 17 + h, r.len() as int) =~= "\r\nConnection: close\r\n\r\n"@);
    assert forall|host2: Seq<char>, path2: Seq<char>|
        #[trigger] get_request(host2, path2) == get_request(host, path) && path2.len()
            == path.len() implies path2 == path && host2 == host by {
        let r2 = get_request(host2, path2);
        assert(r2.subrange(4, 4 + p) =~= path2);
        assert(host2.len() == host.len());
        assert(r2.subrange(4 + p + 17, 4 + p + 17 + h) =~= host2);
    }
}

/// The request for `path` on `host` (see [`get_request`]).
pub fn build_get_request(host: &str, path: &str) -> (r: String)
    ensures
        r@ == get_request(host@, path@),
{
    let mut out = "GET ".to_owned();
    out.append(path);
    out.append(" HTTP/1.1\r\nHost: ");
    out.append(host);
    out.append("\r\nConnection: close\r\n\r\n");
    out
}

} // verus!
