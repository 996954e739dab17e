use crate::data::source::{drawn_since, lemma_drawn_since_concat, InfoSource};
use crate::generators::base::{deterministic, Generator, Maybe};
use vstd::prelude::*;

verus! {

/// A one-tuple of generators generates what its generator does.
impl<A: Generator> Generator for (A,) {
    type Item = (A::Item,);

    open spec fn wf(&self) -> bool {
        self.0.wf()
    }

    open spec fn generates(&self, d: Seq<u8>, r: Maybe<(A::Item,)>) -> bool {
        match r {
            Ok((a,)) => self.0.generates(d, Ok(a)),
            Err(e) => self.0.generates(d, Err(e)),
        }
    }

    fn generate<I: InfoSource>(&self, src: &mut I) -> (r: Maybe<(A::Item,)>) {
        let ghost d0 = src.drawn();
        let a = match self.0.generate(src) {
            Ok(v) => v,
            Err(e) => {
                return Err(e);
            },
        };
        Ok((a,))
    }
}

/// A tuple of generators draws its items in order: the first from the
/// leading bytes, the rest from the bytes that follow. It fails as soon as
/// one of them fails.
impl<A: Generator, B: Generator> Generator for (A, B) {
    type Item = (A::Item, B::Item);

    open spec fn wf(&self) -> bool {
        self.0.wf() && self.1.wf()
    }

    open spec fn generates(&self, d: Seq<u8>, r: Maybe<(A::Item, B::Item)>) -> bool {
        match r {
            Ok((a, b)) => exists|k: int, x: A::Item|
                0 <= k <= d.len() && #[trigger] self.0.generates(d.take(k), Ok(x)) && x == a
                    && self.1.generates(d.skip(k), Ok(b)),
            Err(e) => self.0.generates(d, Err(e)) || exists|k: int, x: A::Item|
                0 <= k <= d.len() && #[trigger] self.0.generates(d.take(k), Ok(x))
                    && self.1.generates(d.skip(k), Err(e)),
        }
    }

    fn generate<I: InfoSource>(&self, src: &mut I) -> (r: Maybe<(A::Item, B::Item)>) {
        let ghost d0 = src.drawn();
        let a = match self.0.generate(src) {
            Ok(v) => v,
            Err(e) => {
                return Err(e);
            },
        };
        let ghost d1 = src.drawn();
        let b = match self.1.generate(src) {
            Ok(v) => v,
            Err(e) => {
                proof {
                    lemma_drawn_since_concat(d0, d1, src.drawn());
                    assert((*self).generates(drawn_since(d0, src.drawn()), Err(e)));
                }
                return Err(e);
            },
        };
        proof {
            lemma_drawn_since_concat(d0, d1, src.drawn());
            assert((*self).generates(drawn_since(d0, src.drawn()), Ok((a, b))));
        }
        Ok((a, b))
    }
}

/// A tuple of generators draws its items in order: the first from the
/// leading bytes, the rest from the bytes that follow. It fails as soon as
/// one of them fails.
impl<A: Generator, B: Generator, C: Generator> Generator for (A, B, C) {
    type Item = (A::Item, B::Item, C::Item);

    open spec fn wf(&self) -> bool {
        self.0.wf() && self.1.wf() && self.2.wf()
    }

    open spec fn generates(&self, d: Seq<u8>, r: Maybe<(A::Item, B::Item, C::Item)>) -> bool {
        match r {
            Ok((a, b, c)) => exists|k: int, x: A::Item|
                0 <= k <= d.len() && #[trigger] self.0.generates(d.take(k), Ok(x)) && x == a
                    && (self.1, self.2).generates(d.skip(k), Ok((b, c))),
            Err(e) => self.0.generates(d, Err(e)) || exists|k: int, x: A::Item|
                0 <= k <= d.len() && #[trigger] self.0.generates(d.take(k), Ok(x))
                    && (self.1, self.2).generates(d.skip(k), Err(e)),
        }
    }

    fn generate<I: InfoSource>(&self, src: &mut I) -> (r: Maybe<(A::Item, B::Item, C::Item)>) {
        let ghost d0 = src.drawn();
        let a = match self.0.generate(src) {
            Ok(v) => v,
            Err(e) => {
                return Err(e);
            },
        };
        let ghost d1 = src.drawn();
        let b = match self.1.generate(src) {
            Ok(v) => v,
            Err(e) => {
                proof {
                    assert((self.1, self.2).generates(drawn_since(d1, src.drawn()), Err(e)));
                    lemma_drawn_since_concat(d0, d1, src.drawn());
                    assert((*self).generates(drawn_since(d0, src.drawn()), Err(e)));
                }
                return Err(e);
            },
        };
        let ghost d2 = src.drawn();
        let c = match self.2.generate(src) {
            Ok(v) => v,
            Err(e) => {
                proof {
                    lemma_drawn_since_concat(d1, d2, src.drawn());
                    assert((self.1, self.2).generates(drawn_since(d1, src.drawn()), Err(e)));
                    lemma_drawn_since_concat(d0, d1, src.drawn());
                    assert((*self).generates(drawn_since(d0, src.drawn()), Err(e)));
                }
                return Err(e);
            },
        };
        proof {
            lemma_drawn_since_concat(d1, d2, src.drawn());
            assert((self.1, self.2).0 == self.1);
            assert((self.1, self.2).generates(drawn_since(d1, src.drawn()), Ok((b, c))));
            lemma_drawn_since_concat(d0, d1, src.drawn());
            assert((*self).generates(drawn_since(d0, src.drawn()), Ok((a, b, c))));
        }
        Ok((a, b, c))
    }
}

/// A tuple of generators draws its items in order: the first from the
/// leading bytes, the rest from the bytes that follow. It fails as soon as
/// one of them fails.
impl<A: Generator, B: Generator, C: Generator, D: Generator> Generator for (A, B, C, D) {
    type Item = (A::Item, B::Item, C::Item, D::Item);

    open spec fn wf(&self) -> bool {
        self.0.wf() && self.1.wf() && self.2.wf() && self.3.wf()
    }

    open spec fn generates(&self, d: Seq<u8>, r: Maybe<(A::Item, B::Item, C::Item, D::Item)>) -> bool {
        match r {
            Ok((a, b, c, f)) => exists|k: int, x: A::Item|
                0 <= k <= d.len() && #[trigger] self.0.generates(d.take(k), Ok(x)) && x == a
                    && (self.1, self.2, self.3).generates(d.skip(k), Ok((b, c, f))),
            Err(e) => self.0.generates(d, Err(e)) || exists|k: int, x: A::Item|
                0 <= k <= d.len() && #[trigger] self.0.generates(d.take(k), Ok(x))
                    && (self.1, self.2, self.3).generates(d.skip(k), Err(e)),
        }
    }

    fn generate<I: InfoSource>(&self, src: &mut I) -> (r: Maybe<(A::Item, B::Item, C::Item, D::Item)>) {
        let ghost d0 = src.drawn();
        let a = match self.0.generate(src) {
            Ok(v) => v,
            Err(e) => {
                return Err(e);
            },
        };
        let ghost d1 = src.drawn();
        let b = match self.1.generate(src) {
            Ok(v) => v,
            Err(e) => {
                proof {
                    assert((self.1, self.2, self.3).generates(drawn_since(d1, src.drawn()), Err(e)));
                    lemma_drawn_since_concat(d0, d1, src.drawn());
                    assert((*self).generates(drawn_since(d0, src.drawn()), Err(e)));
                }
                return Err(e);
            },
        };
        let ghost d2 = src.drawn();
        let c = match self.2.generate(src) {
            Ok(v) => v,
            Err(e) => {
                proof {
                    assert((self.2, self.3).generates(drawn_since(d2, src.drawn()), Err(e)));
                    lemma_drawn_since_concat(d1, d2, src.drawn());
                    assert((self.1, self.2, self.3).generates(drawn_since(d1, src.drawn()), Err(e)));
                    lemma_drawn_since_concat(d0, d1, src.drawn());
                    assert((*self).generates(drawn_since(d0, src.drawn()), Err(e)));
                }
                return Err(e);
            },
        };
        let ghost d3 = src.drawn();
        let f = match self.3.generate(src) {
            Ok(v) => v,
            Err(e) => {
                proof {
                    lemma_drawn_since_concat(d2, d3, src.drawn());
                    assert((self.2, self.3).generates(drawn_since(d2, src.drawn()), Err(e)));
                    lemma_drawn_since_concat(d1, d2, src.drawn());
                    assert((self.1, self.2, self.3).generates(drawn_since(d1, src.drawn()), Err(e)));
                    lemma_drawn_since_concat(d0, d1, src.drawn());
                    assert((*self).generates(drawn_since(d0, src.drawn()), Err(e)));
                }
                return Err(e);
            },
        };
        proof {
            lemma_drawn_since_concat(d2, d3, src.drawn());
            assert((self.2, self.3).0 == self.2);
            assert((self.2, self.3).generates(drawn_since(d2, src.drawn()), Ok((c, f))));
            lemma_drawn_since_concat(d1, d2, src.drawn());
            assert((self.1, self.2, self.3).0 == self.1);
            assert((self.1, self.2, self.3).generates(drawn_since(d1, src.drawn()), Ok((b, c, f))));
            lemma_drawn_since_concat(d0, d1, src.drawn());
            assert((*self).generates(drawn_since(d0, src.drawn()), Ok((a, b, c, f))));
        }
        Ok((a, b, c, f))
    }
}

/// A tuple of generators draws its items in order: the first from the
/// leading bytes, the rest from the bytes that follow. It fails as soon as
/// one of them fails.
impl<A: Generator, B: Generator, C: Generator, D: Generator, E: Generator> Generator for (A, B, C, D, E) {
    type Item = (A::Item, B::Item, C::Item, D::Item, E::Item);

    open spec fn wf(&self) -> bool {
        self.0.wf() && self.1.wf() && self.2.wf() && self.3.wf() && self.4.wf()
    }

    open spec fn generates(&self, d: Seq<u8>, r: Maybe<(A::Item, B::Item, C::Item, D::Item, E::Item)>) -> bool {
        match r {
            Ok((a, b, c, f, g)) => exists|k: int, x: A::Item|
                0 <= k <= d.len() && #[trigger] self.0.generates(d.take(k), Ok(x)) && x == a
                    && (self.1, self.2, self.3, self.4).generates(d.skip(k), Ok((b, c, f, g))),
            Err(e) => self.0.generates(d, Err(e)) || exists|k: int, x: A::Item|
                0 <= k <= d.len() && #[trigger] self.0.generates(d.take(k), Ok(x))
                    && (self.1, self.2, self.3, self.4).generates(d.skip(k), Err(e)),
        }
    }

    fn generate<I: InfoSource>(&self, src: &mut I) -> (r: Maybe<(A::Item, B::Item, C::Item, D::Item, E::Item)>) {
        let ghost d0 = src.drawn();
        let a = match self.0.generate(src) {
            Ok(v) => v,
            Err(e) => {
                return Err(e);
            },
        };
        let ghost d1 = src.drawn();
        let b = match self.1.generate(src) {
            Ok(v) => v,
            Err(e) => {
                proof {
                    assert((self.1, self.2, self.3, self.4).generates(drawn_since(d1, src.drawn()), Err(e)));
                    lemma_drawn_since_concat(d0, d1, src.drawn());
                    assert((*self).generates(drawn_since(d0, src.drawn()), Err(e)));
                }
                return Err(e);
            },
        };
        let ghost d2 = src.drawn();
        let c = match self.2.generate(src) {
            Ok(v) => v,
            Err(e) => {
                proof {
                    assert((self.2, self.3, self.4).generates(drawn_since(d2, src.drawn()), Err(e)));
                    lemma_drawn_since_concat(d1, d2, src.drawn());
                    assert((self.1, self.2, self.3, self.4).generates(drawn_since(d1, src.drawn()), Err(e)));
                    lemma_drawn_since_concat(d0, d1, src.drawn());
                    assert((*self).generates(drawn_since(d0, src.drawn()), Err(e)));
                }
                return Err(e);
            },
        };
        let ghost d3 = src.drawn();
        let f = match self.3.generate(src) {
            Ok(v) => v,
            Err(e) => {
                proof {
                    assert((self.3, self.4).generates(drawn_since(d3, src.drawn()), Err(e)));
                    lemma_drawn_since_concat(d2, d3, src.drawn());
                    assert((self.2, self.3, self.4).generates(drawn_since(d2, src.drawn()), Err(e)));
                    lemma_drawn_since_concat(d1, d2, src.drawn());
                    assert((self.1, self.2, self.3, self.4).generates(drawn_since(d1, src.drawn()), Err(e)));
                    lemma_drawn_since_concat(d0, d1, src.drawn());
                    assert((*self).generates(drawn_since(d0, src.drawn()), Err(e)));
                }
                return Err(e);
            },
        };
        let ghost d4 = src.drawn();
        let g = match self.4.generate(src) {
            Ok(v) => v,
            Err(e) => {
                proof {
                    lemma_drawn_since_concat(d3, d4, src.drawn());
                    assert((self.3, self.4).generates(drawn_since(d3, src.drawn()), Err(e)));
                    lemma_drawn_since_concat(d2, d3, src.drawn());
                    assert((self.2, self.3, self.4).generates(drawn_since(d2, src.drawn()), Err(e)));
                    lemma_drawn_since_concat(d1, d2, src.drawn());
                    assert((self.1, self.2, self.3, self.4).generates(drawn_since(d1, src.drawn()), Err(e)));
                    lemma_drawn_since_concat(d0, d1, src.drawn());
                    assert((*self).generates(drawn_since(d0, src.drawn()), Err(e)));
                }
                return Err(e);
            },
        };
        proof {
            lemma_drawn_since_concat(d3, d4, src.drawn());
            assert((self.3, self.4).0 == self.3);
            assert((self.3, self.4).generates(drawn_since(d3, src.drawn()), Ok((f, g))));
            lemma_drawn_since_concat(d2, d3, src.drawn());
            assert((self.2, self.3, self.4).0 == self.2);
            assert((self.2, self.3, self.4).generates(drawn_since(d2, src.drawn()), Ok((c, f, g))));
            lemma_drawn_since_concat(d1, d2, src.drawn());
            assert((self.1, self.2, self.3, self.4).0 == self.1);
            assert((self.1, self.2, self.3, self.4).generates(drawn_since(d1, src.drawn()), Ok((b, c, f, g))));
            lemma_drawn_since_concat(d0, d1, src.drawn());
            assert((*self).generates(drawn_since(d0, src.drawn()), Ok((a, b, c, f, g))));
        }
        Ok((a, b, c, f, g))
    }
}

/// A tuple of generators draws its items in order: the first from the
/// leading bytes, the rest from the bytes that follow. It fails as soon as
/// one of them fails.
impl<A: Generator, B: Generator, C: Generator, D: Generator, E: Generator, F: Generator> Generator for (A, B, C, D, E, F) {
    type Item = (A::Item, B::Item, C::Item, D::Item, E::Item, F::Item);

    open spec fn wf(&self) -> bool {
        self.0.wf() && self.1.wf() && self.2.wf() && self.3.wf() && self.4.wf() && self.5.wf()
    }

    open spec fn generates(&self, d: Seq<u8>, r: Maybe<(A::Item, B::Item, C::Item, D::Item, E::Item, F::Item)>) -> bool {
        match r {
            Ok((a, b, c, f, g, h)) => exists|k: int, x: A::Item|
                0 <= k <= d.len() && #[trigger] self.0.generates(d.take(k), Ok(x)) && x == a
                    && (self.1, self.2, self.3, self.4, self.5).generates(d.skip(k), Ok((b, c, f, g, h))),
            Err(e) => self.0.generates(d, Err(e)) || exists|k: int, x: A::Item|
                0 <= k <= d.len() && #[trigger] self.0.generates(d.take(k), Ok(x))
                    && (self.1, self.2, self.3, self.4, self.5).generates(d.skip(k), Err(e)),
        }
    }

    fn generate<I: InfoSource>(&self, src: &mut I) -> (r: Maybe<(A::Item, B::Item, C::Item, D::Item, E::Item, F::Item)>) {
        let ghost d0 = src.drawn();
        let a = match self.0.generate(src) {
            Ok(v) => v,
            Err(e) => {
                return Err(e);
            },
        };
        let ghost d1 = src.drawn();
        let b = match self.1.generate(src) {
            Ok(v) => v,
            Err(e) => {
                proof {
                    assert((self.1, self.2, self.3, self.4, self.5).generates(drawn_since(d1, src.drawn()), Err(e)));
                    lemma_drawn_since_concat(d0, d1, src.drawn());
                    assert((*self).generates(drawn_since(d0, src.drawn()), Err(e)));
                }
                return Err(e);
            },
        };
        let ghost d2 = src.drawn();
        let c = match self.2.generate(src) {
            Ok(v) => v,
            Err(e) => {
                proof {
                    assert((self.2, self.3, self.4, self.5).generates(drawn_since(d2, src.drawn()), Err(e)));
                    lemma_drawn_since_concat(d1, d2, src.drawn());
                    assert((self.1, self.2, self.3, self.4, self.5).generates(drawn_since(d1, src.drawn()), Err(e)));
                    lemma_drawn_since_concat(d0, d1, src.drawn());
                    assert((*self).generates(drawn_since(d0, src.drawn()), Err(e)));
                }
                return Err(e);
            },
        };
        let ghost d3 = src.drawn();
        let f = match self.3.generate(src) {
            Ok(v) => v,
            Err(e) => {
                proof {
                    assert((self.3, self.4, self.5).generates(drawn_since(d3, src.drawn()), Err(e)));
                    lemma_drawn_since_concat(d2, d3, src.drawn());
                    assert((self.2, self.3, self.4, self.5).generates(drawn_since(d2, src.drawn()), Err(e)));
                    lemma_drawn_since_concat(d1, d2, src.drawn());
                    assert((self.1, self.2, self.3, self.4, self.5).generates(drawn_since(d1, src.drawn()), Err(e)));
                    lemma_drawn_since_concat(d0, d1, src.drawn());
                    assert((*self).generates(drawn_since(d0, src.drawn()), Err(e)));
                }
                return Err(e);
            },
        };
        let ghost d4 = src.drawn();
        let g = match self.4.generate(src) {
            Ok(v) => v,
            Err(e) => {
                proof {
                    assert((self.4, self.5).generates(drawn_since(d4, src.drawn()), Err(e)));
                    lemma_drawn_since_concat(d3, d4, src.drawn());
                    assert((self.3, self.4, self.5).generates(drawn_since(d3, src.drawn()), Err(e)));
                    lemma_drawn_since_concat(d2, d3, src.drawn());
                    assert((self.2, self.3, self.4, self.5).generates(drawn_since(d2, src.drawn()), Err(e)));
                    lemma_drawn_since_concat(d1, d2, src.drawn());
                    assert((self.1, self.2, self.3, self.4, self.5).generates(drawn_since(d1, src.drawn()), Err(e)));
                    lemma_drawn_since_concat(d0, d1, src.drawn());
                    assert((*self).generates(drawn_since(d0, src.drawn()), Err(e)));
                }
                return Err(e);
            },
        };
        let ghost d5 = src.drawn();
        let h = match self.5.generate(src) {
            Ok(v) => v,
            Err(e) => {
                proof {
                    lemma_drawn_since_concat(d4, d5, src.drawn());
                    assert((self.4, self.5).generates(drawn_since(d4, src.drawn()), Err(e)));
                    lemma_drawn_since_concat(d3, d4, src.drawn());
                    assert((self.3, self.4, self.5).generates(drawn_since(d3, src.drawn()), Err(e)));
                    lemma_drawn_since_concat(d2, d3, src.drawn());
                    assert((self.2, self.3, self.4, self.5).generates(drawn_since(d2, src.drawn()), Err(e)));
                    lemma_drawn_since_concat(d1, d2, src.drawn());
                    assert((self.1, self.2, self.3, self.4, self.5).generates(drawn_since(d1, src.drawn()), Err(e)));
                    lemma_drawn_since_concat(d0, d1, src.drawn());
                    assert((*self).generates(drawn_since(d0, src.drawn()), Err(e)));
                }
                return Err(e);
            },
        };
        proof {
            lemma_drawn_since_concat(d4, d5, src.drawn());
            assert((self.4, self.5).0 == self.4);
            assert((self.4, self.5).generates(drawn_since(d4, src.drawn()), Ok((g, h))));
            lemma_drawn_since_concat(d3, d4, src.drawn());
            assert((self.3, self.4, self.5).0 == self.3);
            assert((self.3, self.4, self.5).generates(drawn_since(d3, src.drawn()), Ok((f, g, h))));
            lemma_drawn_since_concat(d2, d3, src.drawn());
            assert((self.2, self.3, self.4, self.5).0 == self.2);
            assert((self.2, self.3, self.4, self.5).generates(drawn_since(d2, src.drawn()), Ok((c, f, g, h))));
            lemma_drawn_since_concat(d1, d2, src.drawn());
            assert((self.1, self.2, self.3, self.4, self.5).0 == self.1);
            assert((self.1, self.2, self.3, self.4, self.5).generates(drawn_since(d1, src.drawn()), Ok((b, c, f, g, h))));
            lemma_drawn_since_concat(d0, d1, src.drawn());
            assert((*self).generates(drawn_since(d0, src.drawn()), Ok((a, b, c, f, g, h))));
        }
        Ok((a, b, c, f, g, h))
    }
}

/// A tuple of generators draws its items in order: the first from the
/// leading bytes, the rest from the bytes that follow. It fails as soon as
/// one of them fails.
impl<A: Generator, B: Generator, C: Generator, D: Generator, E: Generator, F: Generator, G: Generator> Generator for (A, B, C, D, E, F, G) {
    type Item = (A::Item, B::Item, C::Item, D::Item, E::Item, F::Item, G::Item);

    open spec fn wf(&self) -> bool {
        self.0.wf() && self.1.wf() && self.2.wf() && self.3.wf() && self.4.wf() && self.5.wf() && self.6.wf()
    }

    open spec fn generates(&self, d: Seq<u8>, r: Maybe<(A::Item, B::Item, C::Item, D::Item, E::Item, F::Item, G::Item)>) -> bool {
        match r {
            Ok((a, b, c, f, g, h, j)) => exists|k: int, x: A::Item|
                0 <= k <= d.len() && #[trigger] self.0.generates(d.take(k), Ok(x)) && x == a
                    && (self.1, self.2, self.3, self.4, self.5, self.6).generates(d.skip(k), Ok((b, c, f, g, h, j))),
            Err(e) => self.0.generates(d, Err(e)) || exists|k: int, x: A::Item|
                0 <= k <= d.len() && #[trigger] self.0.generates(d.take(k), Ok(x))
                    && (self.1, self.2, self.3, self.4, self.5, self.6).generates(d.skip(k), Err(e)),
        }
    }

    fn generate<I: InfoSource>(&self, src: &mut I) -> (r: Maybe<(A::Item, B::Item, C::Item, D::Item, E::Item, F::Item, G::Item)>) {
        let ghost d0 = src.drawn();
        let a = match self.0.generate(src) {
            Ok(v) => v,
            Err(e) => {
                return Err(e);
            },
        };
        let ghost d1 = src.drawn();
        let b = match self.1.generate(src) {
            Ok(v) => v,
            Err(e) => {
                proof {
                    assert((self.1, self.2, self.3, self.4, self.5, self.6).generates(drawn_since(d1, src.drawn()), Err(e)));
                    lemma_drawn_since_concat(d0, d1, src.drawn());
                    assert((*self).generates(drawn_since(d0, src.drawn()), Err(e)));
                }
                return Err(e);
            },
        };
        let ghost d2 = src.drawn();
        let c = match self.2.generate(src) {
            Ok(v) => v,
            Err(e) => {
                proof {
                    assert((self.2, self.3, self.4, self.5, self.6).generates(drawn_since(d2, src.drawn()), Err(e)));
                    lemma_drawn_since_concat(d1, d2, src.drawn());
                    assert((self.1, self.2, self.3, self.4, self.5, self.6).generates(drawn_since(d1, src.drawn()), Err(e)));
                    lemma_drawn_since_concat(d0, d1, src.drawn());
                    assert((*self).generates(drawn_since(d0, src.drawn()), Err(e)));
                }
                return Err(e);
            },
        };
        let ghost d3 = src.drawn();
        let f = match self.3.generate(src) {
            Ok(v) => v,
            Err(e) => {
                proof {
                    assert((self.3, self.4, self.5, self.6).generates(drawn_since(d3, src.drawn()), Err(e)));
                    lemma_drawn_since_concat(d2, d3, src.drawn());
                    assert((self.2, self.3, self.4, self.5, self.6).generates(drawn_since(d2, src.drawn()), Err(e)));
                    lemma_drawn_since_concat(d1, d2, src.drawn());
                    assert((self.1, self.2, self.3, self.4, self.5, self.6).generates(drawn_since(d1, src.drawn()), Err(e)));
                    lemma_drawn_since_concat(d0, d1, src.drawn());
                    assert((*self).generates(drawn_since(d0, src.drawn()), Err(e)));
                }
                return Err(e);
            },
        };
        let ghost d4 = src.drawn();
        let g = match self.4.generate(src) {
            Ok(v) => v,
            Err(e) => {
                proof {
                    assert((self.4, self.5, self.6).generates(drawn_since(d4, src.drawn()), Err(e)));
                    lemma_drawn_since_concat(d3, d4, src.drawn());
                    assert((self.3, self.4, self.5, self.6).generates(drawn_since(d3, src.drawn()), Err(e)));
                    lemma_drawn_since_concat(d2, d3, src.drawn());
                    assert((self.2, self.3, self.4, self.5, self.6).generates(drawn_since(d2, src.drawn()), Err(e)));
                    lemma_drawn_since_concat(d1, d2, src.drawn());
                    assert((self.1, self.2, self.3, self.4, self.5, self.6).generates(drawn_since(d1, src.drawn()), Err(e)));
                    lemma_drawn_since_concat(d0, d1, src.drawn());
                    assert((*self).generates(drawn_since(d0, src.drawn()), Err(e)));
                }
                return Err(e);
            },
        };
        let ghost d5 = src.drawn();
        let h = match self.5.generate(src) {
            Ok(v) => v,
            Err(e) => {
                proof {
                    assert((self.5, self.6).generates(drawn_since(d5, src.drawn()), Err(e)));
                    lemma_drawn_since_concat(d4, d5, src.drawn());
                    assert((self.4, self.5, self.6).generates(drawn_since(d4, src.drawn()), Err(e)));
                    lemma_drawn_since_concat(d3, d4, src.drawn());
                    assert((self.3, self.4, self.5, self.6).generates(drawn_since(d3, src.drawn()), Err(e)));
                    lemma_drawn_since_concat(d2, d3, src.drawn());
                    assert((self.2, self.3, self.4, self.5, self.6).generates(drawn_since(d2, src.drawn()), Err(e)));
                    lemma_drawn_since_concat(d1, d2, src.drawn());
                    assert((self.1, self.2, self.3, self.4, self.5, self.6).generates(drawn_since(d1, src.drawn()), Err(e)));
                    lemma_drawn_since_concat(d0, d1, src.drawn());
                    assert((*self).generates(drawn_since(d0, src.drawn()), Err(e)));
                }
                return Err(e);
            },
        };
        let ghost d6 = src.drawn();
        let j = match self.6.generate(src) {
            Ok(v) => v,
            Err(e) => {
                proof {
                    lemma_drawn_since_concat(d5, d6, src.drawn());
                    assert((self.5, self.6).generates(drawn_since(d5, src.drawn()), Err(e)));
                    lemma_drawn_since_concat(d4, d5, src.drawn());
                    assert((self.4, self.5, self.6).generates(drawn_since(d4, src.drawn()), Err(e)));
                    lemma_drawn_since_concat(d3, d4, src.drawn());
                    assert((self.3, self.4, self.5, self.6).generates(drawn_since(d3, src.drawn()), Err(e)));
                    lemma_drawn_since_concat(d2, d3, src.drawn());
                    assert((self.2, self.3, self.4, self.5, self.6).generates(drawn_since(d2, src.drawn()), Err(e)));
                    lemma_drawn_since_concat(d1, d2, src.drawn());
                    assert((self.1, self.2, self.3, self.4, self.5, self.6).generates(drawn_since(d1, src.drawn()), Err(e)));
                    lemma_drawn_since_concat(d0, d1, src.drawn());
                    assert((*self).generates(drawn_since(d0, src.drawn()), Err(e)));
                }
                return Err(e);
            },
        };
        proof {
            lemma_drawn_since_concat(d5, d6, src.drawn());
            assert((self.5, self.6).0 == self.5);
            assert((self.5, self.6).generates(drawn_since(d5, src.drawn()), Ok((h, j))));
            lemma_drawn_since_concat(d4, d5, src.drawn());
            assert((self.4, self.5, self.6).0 == self.4);
            assert((self.4, self.5, self.6).generates(drawn_since(d4, src.drawn()), Ok((g, h, j))));
            lemma_drawn_since_concat(d3, d4, src.drawn());
            assert((self.3, self.4, self.5, self.6).0 == self.3);
            assert((self.3, self.4, self.5, self.6).generates(drawn_since(d3, src.drawn()), Ok((f, g, h, j))));
            lemma_drawn_since_concat(d2, d3, src.drawn());
            assert((self.2, self.3, self.4, self.5, self.6).0 == self.2);
            assert((self.2, self.3, self.4, self.5, self.6).generates(drawn_since(d2, src.drawn()), Ok((c, f, g, h, j))));
            lemma_drawn_since_concat(d1, d2, src.drawn());
            assert((self.1, self.2, self.3, self.4, self.5, self.6).0 == self.1);
            assert((self.1, self.2, self.3, self.4, self.5, self.6).generates(drawn_since(d1, src.drawn()), Ok((b, c, f, g, h, j))));
            lemma_drawn_since_concat(d0, d1, src.drawn());
            assert((*self).generates(drawn_since(d0, src.drawn()), Ok((a, b, c, f, g, h, j))));
        }
        Ok((a, b, c, f, g, h, j))
    }
}

/// A tuple of generators draws its items in order: the first from the
/// leading bytes, the rest from the bytes that follow. It fails as soon as
/// one of them fails.
impl<A: Generator, B: Generator, C: Generator, D: Generator, E: Generator, F: Generator, G: Generator, H: Generator> Generator for (A, B, C, D, E, F, G, H) {
    type Item = (A::Item, B::Item, C::Item, D::Item, E::Item, F::Item, G::Item, H::Item);

    open spec fn wf(&self) -> bool {
        self.0.wf() && self.1.wf() && self.2.wf() && self.3.wf() && self.4.wf() && self.5.wf() && self.6.wf() && self.7.wf()
    }

    open spec fn generates(&self, d: Seq<u8>, r: Maybe<(A::Item, B::Item, C::Item, D::Item, E::Item, F::Item, G::Item, H::Item)>) -> bool {
        match r {
            Ok((a, b, c, f, g, h, j, l)) => exists|k: int, x: A::Item|
                0 <= k <= d.len() && #[trigger] self.0.generates(d.take(k), Ok(x)) && x == a
                    && (self.1, self.2, self.3, self.4, self.5, self.6, self.7).generates(d.skip(k), Ok((b, c, f, g, h, j, l))),
            Err(e) => self.0.generates(d, Err(e)) || exists|k: int, x: A::Item|
                0 <= k <= d.len() && #[trigger] self.0.generates(d.take(k), Ok(x))
                    && (self.1, self.2, self.3, self.4, self.5, self.6, self.7).generates(d.skip(k), Err(e)),
        }
    }

    #[verifier::spinoff_prover]
    #[verifier::rlimit(50)]
    fn generate<I: InfoSource>(&self, src: &mut I) -> (r: Maybe<(A::Item, B::Item, C::Item, D::Item, E::Item, F::Item, G::Item, H::Item)>) {
        let ghost d0 = src.drawn();
        let a = match self.0.generate(src) {
            Ok(v) => v,
            Err(e) => {
                return Err(e);
            },
        };
        let ghost d1 = src.drawn();
        let b = match self.1.generate(src) {
            Ok(v) => v,
            Err(e) => {
                proof {
                    assert((self.1, self.2, self.3, self.4, self.5, self.6, self.7).generates(drawn_since(d1, src.drawn()), Err(e)));
                    lemma_drawn_since_concat(d0, d1, src.drawn());
                    assert((*self).generates(drawn_since(d0, src.drawn()), Err(e)));
                }
                return Err(e);
            },
        };
        let ghost d2 = src.drawn();
        let c = match self.2.generate(src) {
            Ok(v) => v,
            Err(e) => {
                proof {
                    assert((self.2, self.3, self.4, self.5, self.6, self.7).generates(drawn_since(d2, src.drawn()), Err(e)));
                    lemma_drawn_since_concat(d1, d2, src.drawn());
                    assert((self.1, self.2, self.3, self.4, self.5, self.6, self.7).generates(drawn_since(d1, src.drawn()), Err(e)));
                    lemma_drawn_since_concat(d0, d1, src.drawn());
                    assert((*self).generates(drawn_since(d0, src.drawn()), Err(e)));
                }
                return Err(e);
            },
        };
        let ghost d3 = src.drawn();
        let f = match self.3.generate(src) {
            Ok(v) => v,
            Err(e) => {
                proof {
                    assert((self.3, self.4, self.5, self.6, self.7).generates(drawn_since(d3, src.drawn()), Err(e)));
                    lemma_drawn_since_concat(d2, d3, src.drawn());
                    assert((self.2, self.3, self.4, self.5, self.6, self.7).generates(drawn_since(d2, src.drawn()), Err(e)));
                    lemma_drawn_since_concat(d1, d2, src.drawn());
                    assert((self.1, self.2, self.3, self.4, self.5, self.6, self.7).generates(drawn_since(d1, src.drawn()), Err(e)));
                    lemma_drawn_since_concat(d0, d1, src.drawn());
                    assert((*self).generates(drawn_since(d0, src.drawn()), Err(e)));
                }
                return Err(e);
            },
        };
        let ghost d4 = src.drawn();
        let g = match self.4.generate(src) {
            Ok(v) => v,
            Err(e) => {
                proof {
                    assert((self.4, self.5, self.6, self.7).generates(drawn_since(d4, src.drawn()), Err(e)));
                    lemma_drawn_since_concat(d3, d4, src.drawn());
                    assert((self.3, self.4, self.5, self.6, self.7).generates(drawn_since(d3, src.drawn()), Err(e)));
                    lemma_drawn_since_concat(d2, d3, src.drawn());
                    assert((self.2, self.3, self.4, self.5, self.6, self.7).generates(drawn_since(d2, src.drawn()), Err(e)));
                    lemma_drawn_since_concat(d1, d2, src.drawn());
                    assert((self.1, self.2, self.3, self.4, self.5, self.6, self.7).generates(drawn_since(d1, src.drawn()), Err(e)));
                    lemma_drawn_since_concat(d0, d1, src.drawn());
                    assert((*self).generates(drawn_since(d0, src.drawn()), Err(e)));
                }
                return Err(e);
            },
        };
        let ghost d5 = src.drawn();
        let h = match self.5.generate(src) {
            Ok(v) => v,
            Err(e) => {
                proof {
                    assert((self.5, self.6, self.7).generates(drawn_since(d5, src.drawn()), Err(e)));
                    lemma_drawn_since_concat(d4, d5, src.drawn());
                    assert((self.4, self.5, self.6, self.7).generates(drawn_since(d4, src.drawn()), Err(e)));
                    lemma_drawn_since_concat(d3, d4, src.drawn());
                    assert((self.3, self.4, self.5, self.6, self.7).generates(drawn_since(d3, src.drawn()), Err(e)));
                    lemma_drawn_since_concat(d2, d3, src.drawn());
                    assert((self.2, self.3, self.4, self.5, self.6, self.7).generates(drawn_since(d2, src.drawn()), Err(e)));
                    lemma_drawn_since_concat(d1, d2, src.drawn());
                    assert((self.1, self.2, self.3, self.4, self.5, self.6, self.7).generates(drawn_since(d1, src.drawn()), Err(e)));
                    lemma_drawn_since_concat(d0, d1, src.drawn());
                    assert((*self).generates(drawn_since(d0, src.drawn()), Err(e)));
                }
                return Err(e);
            },
        };
        let ghost d6 = src.drawn();
        let j = match self.6.generate(src) {
            Ok(v) => v,
            Err(e) => {
                proof {
                    assert((self.6, self.7).generates(drawn_since(d6, src.drawn()), Err(e)));
                    lemma_drawn_since_concat(d5, d6, src.drawn());
                    assert((self.5, self.6, self.7).generates(drawn_since(d5, src.drawn()), Err(e)));
                    lemma_drawn_since_concat(d4, d5, src.drawn());
                    assert((self.4, self.5, self.6, self.7).generates(drawn_since(d4, src.drawn()), Err(e)));
                    lemma_drawn_since_concat(d3, d4, src.drawn());
                    assert((self.3, self.4, self.5, self.6, self.7).generates(drawn_since(d3, src.drawn()), Err(e)));
                    lemma_drawn_since_concat(d2, d3, src.drawn());
                    assert((self.2, self.3, self.4, self.5, self.6, self.7).generates(drawn_since(d2, src.drawn()), Err(e)));
                    lemma_drawn_since_concat(d1, d2, src.drawn());
                    assert((self.1, self.2, self.3, self.4, self.5, self.6, self.7).generates(drawn_since(d1, src.drawn()), Err(e)));
                    lemma_drawn_since_concat(d0, d1, src.drawn());
                    assert((*self).generates(drawn_since(d0, src.drawn()), Err(e)));
                }
                return Err(e);
            },
        };
        let ghost d7 = src.drawn();
        let l = match self.7.generate(src) {
            Ok(v) => v,
            Err(e) => {
                proof {
                    lemma_drawn_since_concat(d6, d7, src.drawn());
                    assert((self.6, self.7).generates(drawn_since(d6, src.drawn()), Err(e)));
                    lemma_drawn_since_concat(d5, d6, src.drawn());
                    assert((self.5, self.6, self.7).generates(drawn_since(d5, src.drawn()), Err(e)));
                    lemma_drawn_since_concat(d4, d5, src.drawn());
                    assert((self.4, self.5, self.6, self.7).generates(drawn_since(d4, src.drawn()), Err(e)));
                    lemma_drawn_since_concat(d3, d4, src.drawn());
                    assert((self.3, self.4, self.5, self.6, self.7).generates(drawn_since(d3, src.drawn()), Err(e)));
                    lemma_drawn_since_concat(d2, d3, src.drawn());
                    assert((self.2, self.3, self.4, self.5, self.6, self.7).generates(drawn_since(d2, src.drawn()), Err(e)));
                    lemma_drawn_since_concat(d1, d2, src.drawn());
                    assert((self.1, self.2, self.3, self.4, self.5, self.6, self.7).generates(drawn_since(d1, src.drawn()), Err(e)));
                    lemma_drawn_since_concat(d0, d1, src.drawn());
                    assert((*self).generates(drawn_since(d0, src.drawn()), Err(e)));
                }
                return Err(e);
            },
        };
        proof {
            lemma_drawn_since_concat(d6, d7, src.drawn());
            assert((self.6, self.7).0 == self.6);
            assert((self.6, self.7).generates(drawn_since(d6, src.drawn()), Ok((j, l))));
            lemma_drawn_since_concat(d5, d6, src.drawn());
            assert((self.5, self.6, self.7).0 == self.5);
            assert((self.5, self.6, self.7).generates(drawn_since(d5, src.drawn()), Ok((h, j, l))));
            lemma_drawn_since_concat(d4, d5, src.drawn());
            assert((self.4, self.5, self.6, self.7).0 == self.4);
            assert((self.4, self.5, self.6, self.7).generates(drawn_since(d4, src.drawn()), Ok((g, h, j, l))));
            lemma_drawn_since_concat(d3, d4, src.drawn());
            assert((self.3, self.4, self.5, self.6, self.7).0 == self.3);
            assert((self.3, self.4, self.5, self.6, self.7).generates(drawn_since(d3, src.drawn()), Ok((f, g, h, j, l))));
            lemma_drawn_since_concat(d2, d3, src.drawn());
            assert((self.2, self.3, self.4, self.5, self.6, self.7).0 == self.2);
            assert((self.2, self.3, self.4, self.5, self.6, self.7).generates(drawn_since(d2, src.drawn()), Ok((c, f, g, h, j, l))));
            lemma_drawn_since_concat(d1, d2, src.drawn());
            assert((self.1, self.2, self.3, self.4, self.5, self.6, self.7).0 == self.1);
            assert((self.1, self.2, self.3, self.4, self.5, self.6, self.7).generates(drawn_since(d1, src.drawn()), Ok((b, c, f, g, h, j, l))));
            lemma_drawn_since_concat(d0, d1, src.drawn());
            assert((*self).generates(drawn_since(d0, src.drawn()), Ok((a, b, c, f, g, h, j, l))));
        }
        Ok((a, b, c, f, g, h, j, l))
    }
}

/// A tuple of generators draws its items in order: the first from the
/// leading bytes, the rest from the bytes that follow. It fails as soon as
/// one of them fails.
impl<A: Generator, B: Generator, C: Generator, D: Generator, E: Generator, F: Generator, G: Generator, H: Generator, J: Generator> Generator for (A, B, C, D, E, F, G, H, J) {
    type Item = (A::Item, B::Item, C::Item, D::Item, E::Item, F::Item, G::Item, H::Item, J::Item);

    open spec fn wf(&self) -> bool {
        self.0.wf() && self.1.wf() && self.2.wf() && self.3.wf() && self.4.wf() && self.5.wf() && self.6.wf() && self.7.wf() && self.8.wf()
    }

    open spec fn generates(&self, d: Seq<u8>, r: Maybe<(A::Item, B::Item, C::Item, D::Item, E::Item, F::Item, G::Item, H::Item, J::Item)>) -> bool {
        match r {
            Ok((a, b, c, f, g, h, j, l, m)) => exists|k: int, x: A::Item|
                0 <= k <= d.len() && #[trigger] self.0.generates(d.take(k), Ok(x)) && x == a
                    && (self.1, self.2, self.3, self.4, self.5, self.6, self.7, self.8).generates(d.skip(k), Ok((b, c, f, g, h, j, l, m))),
            Err(e) => self.0.generates(d, Err(e)) || exists|k: int, x: A::Item|
                0 <= k <= d.len() && #[trigger] self.0.generates(d.take(k), Ok(x))
                    && (self.1, self.2, self.3, self.4, self.5, self.6, self.7, self.8).generates(d.skip(k), Err(e)),
        }
    }

    #[verifier::spinoff_prover]
    #[verifier::rlimit(50)]
    fn generate<I: InfoSource>(&self, src: &mut I) -> (r: Maybe<(A::Item, B::Item, C::Item, D::Item, E::Item, F::Item, G::Item, H::Item, J::Item)>) {
        let ghost d0 = src.drawn();
        let a = match self.0.generate(src) {
            Ok(v) => v,
            Err(e) => {
                return Err(e);
            },
        };
        let ghost d1 = src.drawn();
        let b = match self.1.generate(src) {
            Ok(v) => v,
            Err(e) => {
                proof {
                    assert((self.1, self.2, self.3, self.4, self.5, self.6, self.7, self.8).generates(drawn_since(d1, src.drawn()), Err(e)));
                    lemma_drawn_since_concat(d0, d1, src.drawn());
                    assert((*self).generates(drawn_since(d0, src.drawn()), Err(e)));
                }
                return Err(e);
            },
        };
        let ghost d2 = src.drawn();
        let c = match self.2.generate(src) {
            Ok(v) => v,
            Err(e) => {
                proof {
                    assert((self.2, self.3, self.4, self.5, self.6, self.7, self.8).generates(drawn_since(d2, src.drawn()), Err(e)));
                    lemma_drawn_since_concat(d1, d2, src.drawn());
                    assert((self.1, self.2, self.3, self.4, self.5, self.6, self.7, self.8).generates(drawn_since(d1, src.drawn()), Err(e)));
                    lemma_drawn_since_concat(d0, d1, src.drawn());
                    assert((*self).generates(drawn_since(d0, src.drawn()), Err(e)));
                }
                return Err(e);
            },
        };
        let ghost d3 = src.drawn();
        let f = match self.3.generate(src) {
            Ok(v) => v,
            Err(e) => {
                proof {
                    assert((self.3, self.4, self.5, self.6, self.7, self.8).generates(drawn_since(d3, src.drawn()), Err(e)));
                    lemma_drawn_since_concat(d2, d3, src.drawn());
                    assert((self.2, self.3, self.4, self.5, self.6, self.7, self.8).generates(drawn_since(d2, src.drawn()), Err(e)));
                    lemma_drawn_since_concat(d1, d2, src.drawn());
                    assert((self.1, self.2, self.3, self.4, self.5, self.6, self.7, self.8).generates(drawn_since(d1, src.drawn()), Err(e)));
                    lemma_drawn_since_concat(d0, d1, src.drawn());
                    assert((*self).generates(drawn_since(d0, src.drawn()), Err(e)));
                }
                return Err(e);
            },
        };
        let ghost d4 = src.drawn();
        let g = match self.4.generate(src) {
            Ok(v) => v,
            Err(e) => {
                proof {
                    assert((self.4, self.5, self.6, self.7, self.8).generates(drawn_since(d4, src.drawn()), Err(e)));
                    lemma_drawn_since_concat(d3, d4, src.drawn());
                    assert((self.3, self.4, self.5, self.6, self.7, self.8).generates(drawn_since(d3, src.drawn()), Err(e)));
                    lemma_drawn_since_concat(d2, d3, src.drawn());
                    assert((self.2, self.3, self.4, self.5, self.6, self.7, self.8).generates(drawn_since(d2, src.drawn()), Err(e)));
                    lemma_drawn_since_concat(d1, d2, src.drawn());
                    assert((self.1, self.2, self.3, self.4, self.5, self.6, self.7, self.8).generates(drawn_since(d1, src.drawn()), Err(e)));
                    lemma_drawn_since_concat(d0, d1, src.drawn());
                    assert((*self).generates(drawn_since(d0, src.drawn()), Err(e)));
                }
                return Err(e);
            },
        };
        let ghost d5 = src.drawn();
        let h = match self.5.generate(src) {
            Ok(v) => v,
            Err(e) => {
                proof {
                    assert((self.5, self.6, self.7, self.8).generates(drawn_since(d5, src.drawn()), Err(e)));
                    lemma_drawn_since_concat(d4, d5, src.drawn());
                    assert((self.4, self.5, self.6, self.7, self.8).generates(drawn_since(d4, src.drawn()), Err(e)));
                    lemma_drawn_since_concat(d3, d4, src.drawn());
                    assert((self.3, self.4, self.5, self.6, self.7, self.8).generates(drawn_since(d3, src.drawn()), Err(e)));
                    lemma_drawn_since_concat(d2, d3, src.drawn());
                    assert((self.2, self.3, self.4, self.5, self.6, self.7, self.8).generates(drawn_since(d2, src.drawn()), Err(e)));
                    lemma_drawn_since_concat(d1, d2, src.drawn());
                    assert((self.1, self.2, self.3, self.4, self.5, self.6, self.7, self.8).generates(drawn_since(d1, src.drawn()), Err(e)));
                    lemma_drawn_since_concat(d0, d1, src.drawn());
                    assert((*self).generates(drawn_since(d0, src.drawn()), Err(e)));
                }
                return Err(e);
            },
        };
        let ghost d6 = src.drawn();
        let j = match self.6.generate(src) {
            Ok(v) => v,
            Err(e) => {
                proof {
                    assert((self.6, self.7, self.8).generates(drawn_since(d6, src.drawn()), Err(e)));
                    lemma_drawn_since_concat(d5, d6, src.drawn());
                    assert((self.5, self.6, self.7, self.8).generates(drawn_since(d5, src.drawn()), Err(e)));
                    lemma_drawn_since_concat(d4, d5, src.drawn());
                    assert((self.4, self.5, self.6, self.7, self.8).generates(drawn_since(d4, src.drawn()), Err(e)));
                    lemma_drawn_since_concat(d3, d4, src.drawn());
                    assert((self.3, self.4, self.5, self.6, self.7, self.8).generates(drawn_since(d3, src.drawn()), Err(e)));
                    lemma_drawn_since_concat(d2, d3, src.drawn());
                    assert((self.2, self.3, self.4, self.5, self.6, self.7, self.8).generates(drawn_since(d2, src.drawn()), Err(e)));
                    lemma_drawn_since_concat(d1, d2, src.drawn());
                    assert((self.1, self.2, self.3, self.4, self.5, self.6, self.7, self.8).generates(drawn_since(d1, src.drawn()), Err(e)));
                    lemma_drawn_since_concat(d0, d1, src.drawn());
                    assert((*self).generates(drawn_since(d0, src.drawn()), Err(e)));
                }
                return Err(e);
            },
        };
        let ghost d7 = src.drawn();
        let l = match self.7.generate(src) {
            Ok(v) => v,
            Err(e) => {
                proof {
                    assert((self.7, self.8).generates(drawn_since(d7, src.drawn()), Err(e)));
                    lemma_drawn_since_concat(d6, d7, src.drawn());
                    assert((self.6, self.7, self.8).generates(drawn_since(d6, src.drawn()), Err(e)));
                    lemma_drawn_since_concat(d5, d6, src.drawn());
                    assert((self.5, self.6, self.7, self.8).generates(drawn_since(d5, src.drawn()), Err(e)));
                    lemma_drawn_since_concat(d4, d5, src.drawn());
                    assert((self.4, self.5, self.6, self.7, self.8).generates(drawn_since(d4, src.drawn()), Err(e)));
                    lemma_drawn_since_concat(d3, d4, src.drawn());
                    assert((self.3, self.4, self.5, self.6, self.7, self.8).generates(drawn_since(d3, src.drawn()), Err(e)));
                    lemma_drawn_since_concat(d2, d3, src.drawn());
                    assert((self.2, self.3, self.4, self.5, self.6, self.7, self.8).generates(drawn_since(d2, src.drawn()), Err(e)));
                    lemma_drawn_since_concat(d1, d2, src.drawn());
                    assert((self.1, self.2, self.3, self.4, self.5, self.6, self.7, self.8).generates(drawn_since(d1, src.drawn()), Err(e)));
                    lemma_drawn_since_concat(d0, d1, src.drawn());
                    assert((*self).generates(drawn_since(d0, src.drawn()), Err(e)));
                }
                return Err(e);
            },
        };
        let ghost d8 = src.drawn();
        let m = match self.8.generate(src) {
            Ok(v) => v,
            Err(e) => {
                proof {
                    lemma_drawn_since_concat(d7, d8, src.drawn());
                    assert((self.7, self.8).generates(drawn_since(d7, src.drawn()), Err(e)));
                    lemma_drawn_since_concat(d6, d7, src.drawn());
                    assert((self.6, self.7, self.8).generates(drawn_since(d6, src.drawn()), Err(e)));
                    lemma_drawn_since_concat(d5, d6, src.drawn());
                    assert((self.5, self.6, self.7, self.8).generates(drawn_since(d5, src.drawn()), Err(e)));
                    lemma_drawn_since_concat(d4, d5, src.drawn());
                    assert((self.4, self.5, self.6, self.7, self.8).generates(drawn_since(d4, src.drawn()), Err(e)));
                    lemma_drawn_since_concat(d3, d4, src.drawn());
                    assert((self.3, self.4, self.5, self.6, self.7, self.8).generates(drawn_since(d3, src.drawn()), Err(e)));
                    lemma_drawn_since_concat(d2, d3, src.drawn());
                    assert((self.2, self.3, self.4, self.5, self.6, self.7, self.8).generates(drawn_since(d2, src.drawn()), Err(e)));
                    lemma_drawn_since_concat(d1, d2, src.drawn());
                    assert((self.1, self.2, self.3, self.4, self.5, self.6, self.7, self.8).generates(drawn_since(d1, src.drawn()), Err(e)));
                    lemma_drawn_since_concat(d0, d1, src.drawn());
                    assert((*self).generates(drawn_since(d0, src.drawn()), Err(e)));
                }
                return Err(e);
            },
        };
        proof {
            lemma_drawn_since_concat(d7, d8, src.drawn());
            assert((self.7, self.8).0 == self.7);
            assert((self.7, self.8).generates(drawn_since(d7, src.drawn()), Ok((l, m))));
            lemma_drawn_since_concat(d6, d7, src.drawn());
            assert((self.6, self.7, self.8).0 == self.6);
            assert((self.6, self.7, self.8).generates(drawn_since(d6, src.drawn()), Ok((j, l, m))));
            lemma_drawn_since_concat(d5, d6, src.drawn());
            assert((self.5, self.6, self.7, self.8).0 == self.5);
            assert((self.5, self.6, self.7, self.8).generates(drawn_since(d5, src.drawn()), Ok((h, j, l, m))));
            lemma_drawn_since_concat(d4, d5, src.drawn());
            assert((self.4, self.5, self.6, self.7, self.8).0 == self.4);
            assert((self.4, self.5, self.6, self.7, self.8).generates(drawn_since(d4, src.drawn()), Ok((g, h, j, l, m))));
            lemma_drawn_since_concat(d3, d4, src.drawn());
            assert((self.3, self.4, self.5, self.6, self.7, self.8).0 == self.3);
            assert((self.3, self.4, self.5, self.6, self.7, self.8).generates(drawn_since(d3, src.drawn()), Ok((f, g, h, j, l, m))));
            lemma_drawn_since_concat(d2, d3, src.drawn());
            assert((self.2, self.3, self.4, self.5, self.6, self.7, self.8).0 == self.2);
            assert((self.2, self.3, self.4, self.5, self.6, self.7, self.8).generates(drawn_since(d2, src.drawn()), Ok((c, f, g, h, j, l, m))));
            lemma_drawn_since_concat(d1, d2, src.drawn());
            assert((self.1, self.2, self.3, self.4, self.5, self.6, self.7, self.8).0 == self.1);
            assert((self.1, self.2, self.3, self.4, self.5, self.6, self.7, self.8).generates(drawn_since(d1, src.drawn()), Ok((b, c, f, g, h, j, l, m))));
            lemma_drawn_since_concat(d0, d1, src.drawn());
            assert((*self).generates(drawn_since(d0, src.drawn()), Ok((a, b, c, f, g, h, j, l, m))));
        }
        Ok((a, b, c, f, g, h, j, l, m))
    }
}

/// A tuple of generators draws its items in order: the first from the
/// leading bytes, the rest from the bytes that follow. It fails as soon as
/// one of them fails.
impl<A: Generator, B: Generator, C: Generator, D: Generator, E: Generator, F: Generator, G: Generator, H: Generator, J: Generator, K: Generator> Generator for (A, B, C, D, E, F, G, H, J, K) {
    type Item = (A::Item, B::Item, C::Item, D::Item, E::Item, F::Item, G::Item, H::Item, J::Item, K::Item);

    open spec fn wf(&self) -> bool {
        self.0.wf() && self.1.wf() && self.2.wf() && self.3.wf() && self.4.wf() && self.5.wf() && self.6.wf() && self.7.wf() && self.8.wf() && self.9.wf()
    }

    open spec fn generates(&self, d: Seq<u8>, r: Maybe<(A::Item, B::Item, C::Item, D::Item, E::Item, F::Item, G::Item, H::Item, J::Item, K::Item)>) -> bool {
        match r {
            Ok((a, b, c, f, g, h, j, l, m, n)) => exists|k: int, x: A::Item|
                0 <= k <= d.len() && #[trigger] self.0.generates(d.take(k), Ok(x)) && x == a
                    && (self.1, self.2, self.3, self.4, self.5, self.6, self.7, self.8, self.9).generates(d.skip(k), Ok((b, c, f, g, h, j, l, m, n))),
            Err(e) => self.0.generates(d, Err(e)) || exists|k: int, x: A::Item|
                0 <= k <= d.len() && #[trigger] self.0.generates(d.take(k), Ok(x))
                    && (self.1, self.2, self.3, self.4, self.5, self.6, self.7, self.8, self.9).generates(d.skip(k), Err(e)),
        }
    }

    #[verifier::spinoff_prover]
    #[verifier::rlimit(50)]
    fn generate<I: InfoSource>(&self, src: &mut I) -> (r: Maybe<(A::Item, B::Item, C::Item, D::Item, E::Item, F::Item, G::Item, H::Item, J::Item, K::Item)>) {
        let ghost d0 = src.drawn();
        let a = match self.0.generate(src) {
            Ok(v) => v,
            Err(e) => {
                return Err(e);
            },
        };
        let ghost d1 = src.drawn();
        let b = match self.1.generate(src) {
            Ok(v) => v,
            Err(e) => {
                proof {
                    assert((self.1, self.2, self.3, self.4, self.5, self.6, self.7, self.8, self.9).generates(drawn_since(d1, src.drawn()), Err(e)));
                    lemma_drawn_since_concat(d0, d1, src.drawn());
                    assert((*self).generates(drawn_since(d0, src.drawn()), Err(e)));
                }
                return Err(e);
            },
        };
        let ghost d2 = src.drawn();
        let c = match self.2.generate(src) {
            Ok(v) => v,
            Err(e) => {
                proof {
                    assert((self.2, self.3, self.4, self.5, self.6, self.7, self.8, self.9).generates(drawn_since(d2, src.drawn()), Err(e)));
                    lemma_drawn_since_concat(d1, d2, src.drawn());
                    assert((self.1, self.2, self.3, self.4, self.5, self.6, self.7, self.8, self.9).generates(drawn_since(d1, src.drawn()), Err(e)));
                    lemma_drawn_since_concat(d0, d1, src.drawn());
                    assert((*self).generates(drawn_since(d0, src.drawn()), Err(e)));
                }
                return Err(e);
            },
        };
        let ghost d3 = src.drawn();
        let f = match self.3.generate(src) {
            Ok(v) => v,
            Err(e) => {
                proof {
                    assert((self.3, self.4, self.5, self.6, self.7, self.8, self.9).generates(drawn_since(d3, src.drawn()), Err(e)));
                    lemma_drawn_since_concat(d2, d3, src.drawn());
                    assert((self.2, self.3, self.4, self.5, self.6, self.7, self.8, self.9).generates(drawn_since(d2, src.drawn()), Err(e)));
                    lemma_drawn_since_concat(d1, d2, src.drawn());
                    assert((self.1, self.2, self.3, self.4, self.5, self.6, self.7, self.8, self.9).generates(drawn_since(d1, src.drawn()), Err(e)));
                    lemma_drawn_since_concat(d0, d1, src.drawn());
                    assert((*self).generates(drawn_since(d0, src.drawn()), Err(e)));
                }
                return Err(e);
            },
        };
        let ghost d4 = src.drawn();
        let g = match self.4.generate(src) {
            Ok(v) => v,
            Err(e) => {
                proof {
                    assert((self.4, self.5, self.6, self.7, self.8, self.9).generates(drawn_since(d4, src.drawn()), Err(e)));
                    lemma_drawn_since_concat(d3, d4, src.drawn());
                    assert((self.3, self.4, self.5, self.6, self.7, self.8, self.9).generates(drawn_since(d3, src.drawn()), Err(e)));
                    lemma_drawn_since_concat(d2, d3, src.drawn());
                    assert((self.2, self.3, self.4, self.5, self.6, self.7, self.8, self.9).generates(drawn_since(d2, src.drawn()), Err(e)));
                    lemma_drawn_since_concat(d1, d2, src.drawn());
                    assert((self.1, self.2, self.3, self.4, self.5, self.6, self.7, self.8, self.9).generates(drawn_since(d1, src.drawn()), Err(e)));
                    lemma_drawn_since_concat(d0, d1, src.drawn());
                    assert((*self).generates(drawn_since(d0, src.drawn()), Err(e)));
                }
                return Err(e);
            },
        };
        let ghost d5 = src.drawn();
        let h = match self.5.generate(src) {
            Ok(v) => v,
            Err(e) => {
                proof {
                    assert((self.5, self.6, self.7, self.8, self.9).generates(drawn_since(d5, src.drawn()), Err(e)));
                    lemma_drawn_since_concat(d4, d5, src.drawn());
                    assert((self.4, self.5, self.6, self.7, self.8, self.9).generates(drawn_since(d4, src.drawn()), Err(e)));
                    lemma_drawn_since_concat(d3, d4, src.drawn());
                    assert((self.3, self.4, self.5, self.6, self.7, self.8, self.9).generates(drawn_since(d3, src.drawn()), Err(e)));
                    lemma_drawn_since_concat(d2, d3, src.drawn());
                    assert((self.2, self.3, self.4, self.5, self.6, self.7, self.8, self.9).generates(drawn_since(d2, src.drawn()), Err(e)));
                    lemma_drawn_since_concat(d1, d2, src.drawn());
                    assert((self.1, self.2, self.3, self.4, self.5, self.6, self.7, self.8, self.9).generates(drawn_since(d1, src.drawn()), Err(e)));
                    lemma_drawn_since_concat(d0, d1, src.drawn());
                    assert((*self).generates(drawn_since(d0, src.drawn()), Err(e)));
                }
                return Err(e);
            },
        };
        let ghost d6 = src.drawn();
        let j = match self.6.generate(src) {
            Ok(v) => v,
            Err(e) => {
                proof {
                    assert((self.6, self.7, self.8, self.9).generates(drawn_since(d6, src.drawn()), Err(e)));
                    lemma_drawn_since_concat(d5, d6, src.drawn());
                    assert((self.5, self.6, self.7, self.8, self.9).generates(drawn_since(d5, src.drawn()), Err(e)));
                    lemma_drawn_since_concat(d4, d5, src.drawn());
                    assert((self.4, self.5, self.6, self.7, self.8, self.9).generates(drawn_since(d4, src.drawn()), Err(e)));
                    lemma_drawn_since_concat(d3, d4, src.drawn());
                    assert((self.3, self.4, self.5, self.6, self.7, self.8, self.9).generates(drawn_since(d3, src.drawn()), Err(e)));
                    lemma_drawn_since_concat(d2, d3, src.drawn());
                    assert((self.2, self.3, self.4, self.5, self.6, self.7, self.8, self.9).generates(drawn_since(d2, src.drawn()), Err(e)));
                    lemma_drawn_since_concat(d1, d2, src.drawn());
                    assert((self.1, self.2, self.3, self.4, self.5, self.6, self.7, self.8, self.9).generates(drawn_since(d1, src.drawn()), Err(e)));
                    lemma_drawn_since_concat(d0, d1, src.drawn());
                    assert((*self).generates(drawn_since(d0, src.drawn()), Err(e)));
                }
                return Err(e);
            },
        };
        let ghost d7 = src.drawn();
        let l = match self.7.generate(src) {
            Ok(v) => v,
            Err(e) => {
                proof {
                    assert((self.7, self.8, self.9).generates(drawn_since(d7, src.drawn()), Err(e)));
                    lemma_drawn_since_concat(d6, d7, src.drawn());
                    assert((self.6, self.7, self.8, self.9).generates(drawn_since(d6, src.drawn()), Err(e)));
                    lemma_drawn_since_concat(d5, d6, src.drawn());
                    assert((self.5, self.6, self.7, self.8, self.9).generates(drawn_since(d5, src.drawn()), Err(e)));
                    lemma_drawn_since_concat(d4, d5, src.drawn());
                    assert((self.4, self.5, self.6, self.7, self.8, self.9).generates(drawn_since(d4, src.drawn()), Err(e)));
                    lemma_drawn_since_concat(d3, d4, src.drawn());
                    assert((self.3, self.4, self.5, self.6, self.7, self.8, self.9).generates(drawn_since(d3, src.drawn()), Err(e)));
                    lemma_drawn_since_concat(d2, d3, src.drawn());
                    assert((self.2, self.3, self.4, self.5, self.6, self.7, self.8, self.9).generates(drawn_since(d2, src.drawn()), Err(e)));
                    lemma_drawn_since_concat(d1, d2, src.drawn());
                    assert((self.1, self.2, self.3, self.4, self.5, self.6, self.7, self.8, self.9).generates(drawn_since(d1, src.drawn()), Err(e)));
                    lemma_drawn_since_concat(d0, d1, src.drawn());
                    assert((*self).generates(drawn_since(d0, src.drawn()), Err(e)));
                }
                return Err(e);
            },
        };
        let ghost d8 = src.drawn();
        let m = match self.8.generate(src) {
            Ok(v) => v,
            Err(e) => {
                proof {
                    assert((self.8, self.9).generates(drawn_since(d8, src.drawn()), Err(e)));
                    lemma_drawn_since_concat(d7, d8, src.drawn());
                    assert((self.7, self.8, self.9).generates(drawn_since(d7, src.drawn()), Err(e)));
                    lemma_drawn_since_concat(d6, d7, src.drawn());
                    assert((self.6, self.7, self.8, self.9).generates(drawn_since(d6, src.drawn()), Err(e)));
                    lemma_drawn_since_concat(d5, d6, src.drawn());
                    assert((self.5, self.6, self.7, self.8, self.9).generates(drawn_since(d5, src.drawn()), Err(e)));
                    lemma_drawn_since_concat(d4, d5, src.drawn());
                    assert((self.4, self.5, self.6, self.7, self.8, self.9).generates(drawn_since(d4, src.drawn()), Err(e)));
                    lemma_drawn_since_concat(d3, d4, src.drawn());
                    assert((self.3, self.4, self.5, self.6, self.7, self.8, self.9).generates(drawn_since(d3, src.drawn()), Err(e)));
                    lemma_drawn_since_concat(d2, d3, src.drawn());
                    assert((self.2, self.3, self.4, self.5, self.6, self.7, self.8, self.9).generates(drawn_since(d2, src.drawn()), Err(e)));
                    lemma_drawn_since_concat(d1, d2, src.drawn());
                    assert((self.1, self.2, self.3, self.4, self.5, self.6, self.7, self.8, self.9).generates(drawn_since(d1, src.drawn()), Err(e)));
                    lemma_drawn_since_concat(d0, d1, src.drawn());
                    assert((*self).generates(drawn_since(d0, src.drawn()), Err(e)));
                }
                return Err(e);
            },
        };
        let ghost d9 = src.drawn();
        let n = match self.9.generate(src) {
            Ok(v) => v,
            Err(e) => {
                proof {
                    lemma_drawn_since_concat(d8, d9, src.drawn());
                    assert((self.8, self.9).generates(drawn_since(d8, src.drawn()), Err(e)));
                    lemma_drawn_since_concat(d7, d8, src.drawn());
                    assert((self.7, self.8, self.9).generates(drawn_since(d7, src.drawn()), Err(e)));
                    lemma_drawn_since_concat(d6, d7, src.drawn());
                    assert((self.6, self.7, self.8, self.9).generates(drawn_since(d6, src.drawn()), Err(e)));
                    lemma_drawn_since_concat(d5, d6, src.drawn());
                    assert((self.5, self.6, self.7, self.8, self.9).generates(drawn_since(d5, src.drawn()), Err(e)));
                    lemma_drawn_since_concat(d4, d5, src.drawn());
                    assert((self.4, self.5, self.6, self.7, self.8, self.9).generates(drawn_since(d4, src.drawn()), Err(e)));
                    lemma_drawn_since_concat(d3, d4, src.drawn());
                    assert((self.3, self.4, self.5, self.6, self.7, self.8, self.9).generates(drawn_since(d3, src.drawn()), Err(e)));
                    lemma_drawn_since_concat(d2, d3, src.drawn());
                    assert((self.2, self.3, self.4, self.5, self.6, self.7, self.8, self.9).generates(drawn_since(d2, src.drawn()), Err(e)));
                    lemma_drawn_since_concat(d1, d2, src.drawn());
                    assert((self.1, self.2, self.3, self.4, self.5, self.6, self.7, self.8, self.9).generates(drawn_since(d1, src.drawn()), Err(e)));
                    lemma_drawn_since_concat(d0, d1, src.drawn());
                    assert((*self).generates(drawn_since(d0, src.drawn()), Err(e)));
                }
                return Err(e);
            },
        };
        proof {
            lemma_drawn_since_concat(d8, d9, src.drawn());
            assert((self.8, self.9).0 == self.8);
            assert((self.8, self.9).generates(drawn_since(d8, src.drawn()), Ok((m, n))));
            lemma_drawn_since_concat(d7, d8, src.drawn());
            assert((self.7, self.8, self.9).0 == self.7);
            assert((self.7, self.8, self.9).generates(drawn_since(d7, src.drawn()), Ok((l, m, n))));
            lemma_drawn_since_concat(d6, d7, src.drawn());
            assert((self.6, self.7, self.8, self.9).0 == self.6);
            assert((self.6, self.7, self.8, self.9).generates(drawn_since(d6, src.drawn()), Ok((j, l, m, n))));
            lemma_drawn_since_concat(d5, d6, src.drawn());
            assert((self.5, self.6, self.7, self.8, self.9).0 == self.5);
            assert((self.5, self.6, self.7, self.8, self.9).generates(drawn_since(d5, src.drawn()), Ok((h, j, l, m, n))));
            lemma_drawn_since_concat(d4, d5, src.drawn());
            assert((self.4, self.5, self.6, self.7, self.8, self.9).0 == self.4);
            assert((self.4, self.5, self.6, self.7, self.8, self.9).generates(drawn_since(d4, src.drawn()), Ok((g, h, j, l, m, n))));
            lemma_drawn_since_concat(d3, d4, src.drawn());
            assert((self.3, self.4, self.5, self.6, self.7, self.8, self.9).0 == self.3);
            assert((self.3, self.4, self.5, self.6, self.7, self.8, self.9).generates(drawn_since(d3, src.drawn()), Ok((f, g, h, j, l, m, n))));
            lemma_drawn_since_concat(d2, d3, src.drawn());
            assert((self.2, self.3, self.4, self.5, self.6, self.7, self.8, self.9).0 == self.2);
            assert((self.2, self.3, self.4, self.5, self.6, self.7, self.8, self.9).generates(drawn_since(d2, src.drawn()), Ok((c, f, g, h, j, l, m, n))));
            lemma_drawn_since_concat(d1, d2, src.drawn());
            assert((self.1, self.2, self.3, self.4, self.5, self.6, self.7, self.8, self.9).0 == self.1);
            assert((self.1, self.2, self.3, self.4, self.5, self.6, self.7, self.8, self.9).generates(drawn_since(d1, src.drawn()), Ok((b, c, f, g, h, j, l, m, n))));
            lemma_drawn_since_concat(d0, d1, src.drawn());
            assert((*self).generates(drawn_since(d0, src.drawn()), Ok((a, b, c, f, g, h, j, l, m, n))));
        }
        Ok((a, b, c, f, g, h, j, l, m, n))
    }
}

/// A tuple of generators draws its items in order: the first from the
/// leading bytes, the rest from the bytes that follow. It fails as soon as
/// one of them fails.
impl<A: Generator, B: Generator, C: Generator, D: Generator, E: Generator, F: Generator, G: Generator, H: Generator, J: Generator, K: Generator, L: Generator> Generator for (A, B, C, D, E, F, G, H, J, K, L) {
    type Item = (A::Item, B::Item, C::Item, D::Item, E::Item, F::Item, G::Item, H::Item, J::Item, K::Item, L::Item);

    open spec fn wf(&self) -> bool {
        self.0.wf() && self.1.wf() && self.2.wf() && self.3.wf() && self.4.wf() && self.5.wf() && self.6.wf() && self.7.wf() && self.8.wf() && self.9.wf() && self.10.wf()
    }

    open spec fn generates(&self, d: Seq<u8>, r: Maybe<(A::Item, B::Item, C::Item, D::Item, E::Item, F::Item, G::Item, H::Item, J::Item, K::Item, L::Item)>) -> bool {
        match r {
            Ok((a, b, c, f, g, h, j, l, m, n, o)) => exists|k: int, x: A::Item|
                0 <= k <= d.len() && #[trigger] self.0.generates(d.take(k), Ok(x)) && x == a
                    && (self.1, self.2, self.3, self.4, self.5, self.6, self.7, self.8, self.9, self.10).generates(d.skip(k), Ok((b, c, f, g, h, j, l, m, n, o))),
            Err(e) => self.0.generates(d, Err(e)) || exists|k: int, x: A::Item|
                0 <= k <= d.len() && #[trigger] self.0.generates(d.take(k), Ok(x))
                    && (self.1, self.2, self.3, self.4, self.5, self.6, self.7, self.8, self.9, self.10).generates(d.skip(k), Err(e)),
        }
    }

    #[verifier::spinoff_prover]
    #[verifier::rlimit(50)]
    fn generate<I: InfoSource>(&self, src: &mut I) -> (r: Maybe<(A::Item, B::Item, C::Item, D::Item, E::Item, F::Item, G::Item, H::Item, J::Item, K::Item, L::Item)>) {
        let ghost d0 = src.drawn();
        let a = match self.0.generate(src) {
            Ok(v) => v,
            Err(e) => {
                return Err(e);
            },
        };
        let ghost d1 = src.drawn();
        let b = match self.1.generate(src) {
            Ok(v) => v,
            Err(e) => {
                proof {
                    assert((self.1, self.2, self.3, self.4, self.5, self.6, self.7, self.8, self.9, self.10).generates(drawn_since(d1, src.drawn()), Err(e)));
                    lemma_drawn_since_concat(d0, d1, src.drawn());
                    assert((*self).generates(drawn_since(d0, src.drawn()), Err(e)));
                }
                return Err(e);
            },
        };
        let ghost d2 = src.drawn();
        let c = match self.2.generate(src) {
            Ok(v) => v,
            Err(e) => {
                proof {
                    assert((self.2, self.3, self.4, self.5, self.6, self.7, self.8, self.9, self.10).generates(drawn_since(d2, src.drawn()), Err(e)));
                    lemma_drawn_since_concat(d1, d2, src.drawn());
                    assert((self.1, self.2, self.3, self.4, self.5, self.6, self.7, self.8, self.9, self.10).generates(drawn_since(d1, src.drawn()), Err(e)));
                    lemma_drawn_since_concat(d0, d1, src.drawn());
                    assert((*self).generates(drawn_since(d0, src.drawn()), Err(e)));
                }
                return Err(e);
            },
        };
        let ghost d3 = src.drawn();
        let f = match self.3.generate(src) {
            Ok(v) => v,
            Err(e) => {
                proof {
                    assert((self.3, self.4, self.5, self.6, self.7, self.8, self.9, self.10).generates(drawn_since(d3, src.drawn()), Err(e)));
                    lemma_drawn_since_concat(d2, d3, src.drawn());
                    assert((self.2, self.3, self.4, self.5, self.6, self.7, self.8, self.9, self.10).generates(drawn_since(d2, src.drawn()), Err(e)));
                    lemma_drawn_since_concat(d1, d2, src.drawn());
                    assert((self.1, self.2, self.3, self.4, self.5, self.6, self.7, self.8, self.9, self.10).generates(drawn_since(d1, src.drawn()), Err(e)));
                    lemma_drawn_since_concat(d0, d1, src.drawn());
                    assert((*self).generates(drawn_since(d0, src.drawn()), Err(e)));
                }
                return Err(e);
            },
        };
        let ghost d4 = src.drawn();
        let g = match self.4.generate(src) {
            Ok(v) => v,
            Err(e) => {
                proof {
                    assert((self.4, self.5, self.6, self.7, self.8, self.9, self.10).generates(drawn_since(d4, src.drawn()), Err(e)));
                    lemma_drawn_since_concat(d3, d4, src.drawn());
                    assert((self.3, self.4, self.5, self.6, self.7, self.8, self.9, self.10).generates(drawn_since(d3, src.drawn()), Err(e)));
                    lemma_drawn_since_concat(d2, d3, src.drawn());
                    assert((self.2, self.3, self.4, self.5, self.6, self.7, self.8, self.9, self.10).generates(drawn_since(d2, src.drawn()), Err(e)));
                    lemma_drawn_since_concat(d1, d2, src.drawn());
                    assert((self.1, self.2, self.3, self.4, self.5, self.6, self.7, self.8, self.9, self.10).generates(drawn_since(d1, src.drawn()), Err(e)));
                    lemma_drawn_since_concat(d0, d1, src.drawn());
                    assert((*self).generates(drawn_since(d0, src.drawn()), Err(e)));
                }
                return Err(e);
            },
        };
        let ghost d5 = src.drawn();
        let h = match self.5.generate(src) {
            Ok(v) => v,
            Err(e) => {
                proof {
                    assert((self.5, self.6, self.7, self.8, self.9, self.10).generates(drawn_since(d5, src.drawn()), Err(e)));
                    lemma_drawn_since_concat(d4, d5, src.drawn());
                    assert((self.4, self.5, self.6, self.7, self.8, self.9, self.10).generates(drawn_since(d4, src.drawn()), Err(e)));
                    lemma_drawn_since_concat(d3, d4, src.drawn());
                    assert((self.3, self.4, self.5, self.6, self.7, self.8, self.9, self.10).generates(drawn_since(d3, src.drawn()), Err(e)));
                    lemma_drawn_since_concat(d2, d3, src.drawn());
                    assert((self.2, self.3, self.4, self.5, self.6, self.7, self.8, self.9, self.10).generates(drawn_since(d2, src.drawn()), Err(e)));
                    lemma_drawn_since_concat(d1, d2, src.drawn());
                    assert((self.1, self.2, self.3, self.4, self.5, self.6, self.7, self.8, self.9, self.10).generates(drawn_since(d1, src.drawn()), Err(e)));
                    lemma_drawn_since_concat(d0, d1, src.drawn());
                    assert((*self).generates(drawn_since(d0, src.drawn()), Err(e)));
                }
                return Err(e);
            },
        };
        let ghost d6 = src.drawn();
        let j = match self.6.generate(src) {
            Ok(v) => v,
            Err(e) => {
                proof {
                    assert((self.6, self.7, self.8, self.9, self.10).generates(drawn_since(d6, src.drawn()), Err(e)));
                    lemma_drawn_since_concat(d5, d6, src.drawn());
                    assert((self.5, self.6, self.7, self.8, self.9, self.10).generates(drawn_since(d5, src.drawn()), Err(e)));
                    lemma_drawn_since_concat(d4, d5, src.drawn());
                    assert((self.4, self.5, self.6, self.7, self.8, self.9, self.10).generates(drawn_since(d4, src.drawn()), Err(e)));
                    lemma_drawn_since_concat(d3, d4, src.drawn());
                    assert((self.3, self.4, self.5, self.6, self.7, self.8, self.9, self.10).generates(drawn_since(d3, src.drawn()), Err(e)));
                    lemma_drawn_since_concat(d2, d3, src.drawn());
                    assert((self.2, self.3, self.4, self.5, self.6, self.7, self.8, self.9, self.10).generates(drawn_since(d2, src.drawn()), Err(e)));
                    lemma_drawn_since_concat(d1, d2, src.drawn());
                    assert((self.1, self.2, self.3, self.4, self.5, self.6, self.7, self.8, self.9, self.10).generates(drawn_since(d1, src.drawn()), Err(e)));
                    lemma_drawn_since_concat(d0, d1, src.drawn());
                    assert((*self).generates(drawn_since(d0, src.drawn()), Err(e)));
                }
                return Err(e);
            },
        };
        let ghost d7 = src.drawn();
        let l = match self.7.generate(src) {
            Ok(v) => v,
            Err(e) => {
                proof {
                    assert((self.7, self.8, self.9, self.10).generates(drawn_since(d7, src.drawn()), Err(e)));
                    lemma_drawn_since_concat(d6, d7, src.drawn());
                    assert((self.6, self.7, self.8, self.9, self.10).generates(drawn_since(d6, src.drawn()), Err(e)));
                    lemma_drawn_since_concat(d5, d6, src.drawn());
                    assert((self.5, self.6, self.7, self.8, self.9, self.10).generates(drawn_since(d5, src.drawn()), Err(e)));
                    lemma_drawn_since_concat(d4, d5, src.drawn());
                    assert((self.4, self.5, self.6, self.7, self.8, self.9, self.10).generates(drawn_since(d4, src.drawn()), Err(e)));
                    lemma_drawn_since_concat(d3, d4, src.drawn());
                    assert((self.3, self.4, self.5, self.6, self.7, self.8, self.9, self.10).generates(drawn_since(d3, src.drawn()), Err(e)));
                    lemma_drawn_since_concat(d2, d3, src.drawn());
                    assert((self.2, self.3, self.4, self.5, self.6, self.7, self.8, self.9, self.10).generates(drawn_since(d2, src.drawn()), Err(e)));
                    lemma_drawn_since_concat(d1, d2, src.drawn());
                    assert((self.1, self.2, self.3, self.4, self.5, self.6, self.7, self.8, self.9, self.10).generates(drawn_since(d1, src.drawn()), Err(e)));
                    lemma_drawn_since_concat(d0, d1, src.drawn());
                    assert((*self).generates(drawn_since(d0, src.drawn()), Err(e)));
                }
                return Err(e);
            },
        };
        let ghost d8 = src.drawn();
        let m = match self.8.generate(src) {
            Ok(v) => v,
            Err(e) => {
                proof {
                    assert((self.8, self.9, self.10).generates(drawn_since(d8, src.drawn()), Err(e)));
                    lemma_drawn_since_concat(d7, d8, src.drawn());
                    assert((self.7, self.8, self.9, self.10).generates(drawn_since(d7, src.drawn()), Err(e)));
                    lemma_drawn_since_concat(d6, d7, src.drawn());
                    assert((self.6, self.7, self.8, self.9, self.10).generates(drawn_since(d6, src.drawn()), Err(e)));
                    lemma_drawn_since_concat(d5, d6, src.drawn());
                    assert((self.5, self.6, self.7, self.8, self.9, self.10).generates(drawn_since(d5, src.drawn()), Err(e)));
                    lemma_drawn_since_concat(d4, d5, src.drawn());
                    assert((self.4, self.5, self.6, self.7, self.8, self.9, self.10).generates(drawn_since(d4, src.drawn()), Err(e)));
                    lemma_drawn_since_concat(d3, d4, src.drawn());
                    assert((self.3, self.4, self.5, self.6, self.7, self.8, self.9, self.10).generates(drawn_since(d3, src.drawn()), Err(e)));
                    lemma_drawn_since_concat(d2, d3, src.drawn());
                    assert((self.2, self.3, self.4, self.5, self.6, self.7, self.8, self.9, self.10).generates(drawn_since(d2, src.drawn()), Err(e)));
                    lemma_drawn_since_concat(d1, d2, src.drawn());
                    assert((self.1, self.2, self.3, self.4, self.5, self.6, self.7, self.8, self.9, self.10).generates(drawn_since(d1, src.drawn()), Err(e)));
                    lemma_drawn_since_concat(d0, d1, src.drawn());
                    assert((*self).generates(drawn_since(d0, src.drawn()), Err(e)));
                }
                return Err(e);
            },
        };
        let ghost d9 = src.drawn();
        let n = match self.9.generate(src) {
            Ok(v) => v,
            Err(e) => {
                proof {
                    assert((self.9, self.10).generates(drawn_since(d9, src.drawn()), Err(e)));
                    lemma_drawn_since_concat(d8, d9, src.drawn());
                    assert((self.8, self.9, self.10).generates(drawn_since(d8, src.drawn()), Err(e)));
                    lemma_drawn_since_concat(d7, d8, src.drawn());
                    assert((self.7, self.8, self.9, self.10).generates(drawn_since(d7, src.drawn()), Err(e)));
                    lemma_drawn_since_concat(d6, d7, src.drawn());
                    assert((self.6, self.7, self.8, self.9, self.10).generates(drawn_since(d6, src.drawn()), Err(e)));
                    lemma_drawn_since_concat(d5, d6, src.drawn());
                    assert((self.5, self.6, self.7, self.8, self.9, self.10).generates(drawn_since(d5, src.drawn()), Err(e)));
                    lemma_drawn_since_concat(d4, d5, src.drawn());
                    assert((self.4, self.5, self.6, self.7, self.8, self.9, self.10).generates(drawn_since(d4, src.drawn()), Err(e)));
                    lemma_drawn_since_concat(d3, d4, src.drawn());
                    assert((self.3, self.4, self.5, self.6, self.7, self.8, self.9, self.10).generates(drawn_since(d3, src.drawn()), Err(e)));
                    lemma_drawn_since_concat(d2, d3, src.drawn());
                    assert((self.2, self.3, self.4, self.5, self.6, self.7, self.8, self.9, self.10).generates(drawn_since(d2, src.drawn()), Err(e)));
                    lemma_drawn_since_concat(d1, d2, src.drawn());
                    assert((self.1, self.2, self.3, self.4, self.5, self.6, self.7, self.8, self.9, self.10).generates(drawn_since(d1, src.drawn()), Err(e)));
                    lemma_drawn_since_concat(d0, d1, src.drawn());
                    assert((*self).generates(drawn_since(d0, src.drawn()), Err(e)));
                }
                return Err(e);
            },
        };
        let ghost d10 = src.drawn();
        let o = match self.10.generate(src) {
            Ok(v) => v,
            Err(e) => {
                proof {
                    lemma_drawn_since_concat(d9, d10, src.drawn());
                    assert((self.9, self.10).generates(drawn_since(d9, src.drawn()), Err(e)));
                    lemma_drawn_since_concat(d8, d9, src.drawn());
                    assert((self.8, self.9, self.10).generates(drawn_since(d8, src.drawn()), Err(e)));
                    lemma_drawn_since_concat(d7, d8, src.drawn());
                    assert((self.7, self.8, self.9, self.10).generates(drawn_since(d7, src.drawn()), Err(e)));
                    lemma_drawn_since_concat(d6, d7, src.drawn());
                    assert((self.6, self.7, self.8, self.9, self.10).generates(drawn_since(d6, src.drawn()), Err(e)));
                    lemma_drawn_since_concat(d5, d6, src.drawn());
                    assert((self.5, self.6, self.7, self.8, self.9, self.10).generates(drawn_since(d5, src.drawn()), Err(e)));
                    lemma_drawn_since_concat(d4, d5, src.drawn());
                    assert((self.4, self.5, self.6, self.7, self.8, self.9, self.10).generates(drawn_since(d4, src.drawn()), Err(e)));
                    lemma_drawn_since_concat(d3, d4, src.drawn());
                    assert((self.3, self.4, self.5, self.6, self.7, self.8, self.9, self.10).generates(drawn_since(d3, src.drawn()), Err(e)));
                    lemma_drawn_since_concat(d2, d3, src.drawn());
                    assert((self.2, self.3, self.4, self.5, self.6, self.7, self.8, self.9, self.10).generates(drawn_since(d2, src.drawn()), Err(e)));
                    lemma_drawn_since_concat(d1, d2, src.drawn());
                    assert((self.1, self.2, self.3, self.4, self.5, self.6, self.7, self.8, self.9, self.10).generates(drawn_since(d1, src.drawn()), Err(e)));
                    lemma_drawn_since_concat(d0, d1, src.drawn());
                    assert((*self).generates(drawn_since(d0, src.drawn()), Err(e)));
                }
                return Err(e);
            },
        };
        proof {
            lemma_drawn_since_concat(d9, d10, src.drawn());
            assert((self.9, self.10).0 == self.9);
            assert((self.9, self.10).generates(drawn_since(d9, src.drawn()), Ok((n, o))));
            lemma_drawn_since_concat(d8, d9, src.drawn());
            assert((self.8, self.9, self.10).0 == self.8);
            assert((self.8, self.9, self.10).generates(drawn_since(d8, src.drawn()), Ok((m, n, o))));
            lemma_drawn_since_concat(d7, d8, src.drawn());
            assert((self.7, self.8, self.9, self.10).0 == self.7);
            assert((self.7, self.8, self.9, self.10).generates(drawn_since(d7, src.drawn()), Ok((l, m, n, o))));
            lemma_drawn_since_concat(d6, d7, src.drawn());
            assert((self.6, self.7, self.8, self.9, self.10).0 == self.6);
            assert((self.6, self.7, self.8, self.9, self.10).generates(drawn_since(d6, src.drawn()), Ok((j, l, m, n, o))));
            lemma_drawn_since_concat(d5, d6, src.drawn());
            assert((self.5, self.6, self.7, self.8, self.9, self.10).0 == self.5);
            assert((self.5, self.6, self.7, self.8, self.9, self.10).generates(drawn_since(d5, src.drawn()), Ok((h, j, l, m, n, o))));
            lemma_drawn_since_concat(d4, d5, src.drawn());
            assert((self.4, self.5, self.6, self.7, self.8, self.9, self.10).0 == self.4);
            assert((self.4, self.5, self.6, self.7, self.8, self.9, self.10).generates(drawn_since(d4, src.drawn()), Ok((g, h, j, l, m, n, o))));
            lemma_drawn_since_concat(d3, d4, src.drawn());
            assert((self.3, self.4, self.5, self.6, self.7, self.8, self.9, self.10).0 == self.3);
            assert((self.3, self.4, self.5, self.6, self.7, self.8, self.9, self.10).generates(drawn_since(d3, src.drawn()), Ok((f, g, h, j, l, m, n, o))));
            lemma_drawn_since_concat(d2, d3, src.drawn());
            assert((self.2, self.3, self.4, self.5, self.6, self.7, self.8, self.9, self.10).0 == self.2);
            assert((self.2, self.3, self.4, self.5, self.6, self.7, self.8, self.9, self.10).generates(drawn_since(d2, src.drawn()), Ok((c, f, g, h, j, l, m, n, o))));
            lemma_drawn_since_concat(d1, d2, src.drawn());
            assert((self.1, self.2, self.3, self.4, self.5, self.6, self.7, self.8, self.9, self.10).0 == self.1);
            assert((self.1, self.2, self.3, self.4, self.5, self.6, self.7, self.8, self.9, self.10).generates(drawn_since(d1, src.drawn()), Ok((b, c, f, g, h, j, l, m, n, o))));
            lemma_drawn_since_concat(d0, d1, src.drawn());
            assert((*self).generates(drawn_since(d0, src.drawn()), Ok((a, b, c, f, g, h, j, l, m, n, o))));
        }
        Ok((a, b, c, f, g, h, j, l, m, n, o))
    }
}

/// A tuple of generators draws its items in order: the first from the
/// leading bytes, the rest from the bytes that follow. It fails as soon as
/// one of them fails.
impl<A: Generator, B: Generator, C: Generator, D: Generator, E: Generator, F: Generator, G: Generator, H: Generator, J: Generator, K: Generator, L: Generator, M: Generator> Generator for (A, B, C, D, E, F, G, H, J, K, L, M) {
    type Item = (A::Item, B::Item, C::Item, D::Item, E::Item, F::Item, G::Item, H::Item, J::Item, K::Item, L::Item, M::Item);

    open spec fn wf(&self) -> bool {
        self.0.wf() && self.1.wf() && self.2.wf() && self.3.wf() && self.4.wf() && self.5.wf() && self.6.wf() && self.7.wf() && self.8.wf() && self.9.wf() && self.10.wf() && self.11.wf()
    }

    open spec fn generates(&self, d: Seq<u8>, r: Maybe<(A::Item, B::Item, C::Item, D::Item, E::Item, F::Item, G::Item, H::Item, J::Item, K::Item, L::Item, M::Item)>) -> bool {
        match r {
            Ok((a, b, c, f, g, h, j, l, m, n, o, q)) => exists|k: int, x: A::Item|
                0 <= k <= d.len() && #[trigger] self.0.generates(d.take(k), Ok(x)) && x == a
                    && (self.1, self.2, self.3, self.4, self.5, self.6, self.7, self.8, self.9, self.10, self.11).generates(d.skip(k), Ok((b, c, f, g, h, j, l, m, n, o, q))),
            Err(e) => self.0.generates(d, Err(e)) || exists|k: int, x: A::Item|
                0 <= k <= d.len() && #[trigger] self.0.generates(d.take(k), Ok(x))
                    && (self.1, self.2, self.3, self.4, self.5, self.6, self.7, self.8, self.9, self.10, self.11).generates(d.skip(k), Err(e)),
        }
    }

    #[verifier::spinoff_prover]
    #[verifier::rlimit(50)]
    fn generate<I: InfoSource>(&self, src: &mut I) -> (r: Maybe<(A::Item, B::Item, C::Item, D::Item, E::Item, F::Item, G::Item, H::Item, J::Item, K::Item, L::Item, M::Item)>) {
        let ghost d0 = src.drawn();
        let a = match self.0.generate(src) {
            Ok(v) => v,
            Err(e) => {
                return Err(e);
            },
        };
        let ghost d1 = src.drawn();
        let b = match self.1.generate(src) {
            Ok(v) => v,
            Err(e) => {
                proof {
                    assert((self.1, self.2, self.3, self.4, self.5, self.6, self.7, self.8, self.9, self.10, self.11).generates(drawn_since(d1, src.drawn()), Err(e)));
                    lemma_drawn_since_concat(d0, d1, src.drawn());
                    assert((*self).generates(drawn_since(d0, src.drawn()), Err(e)));
                }
                return Err(e);
            },
        };
        let ghost d2 = src.drawn();
        let c = match self.2.generate(src) {
            Ok(v) => v,
            Err(e) => {
                proof {
                    assert((self.2, self.3, self.4, self.5, self.6, self.7, self.8, self.9, self.10, self.11).generates(drawn_since(d2, src.drawn()), Err(e)));
                    lemma_drawn_since_concat(d1, d2, src.drawn());
                    assert((self.1, self.2, self.3, self.4, self.5, self.6, self.7, self.8, self.9, self.10, self.11).generates(drawn_since(d1, src.drawn()), Err(e)));
                    lemma_drawn_since_concat(d0, d1, src.drawn());
                    assert((*self).generates(drawn_since(d0, src.drawn()), Err(e)));
                }
                return Err(e);
            },
        };
        let ghost d3 = src.drawn();
        let f = match self.3.generate(src) {
            Ok(v) => v,
            Err(e) => {
                proof {
                    assert((self.3, self.4, self.5, self.6, self.7, self.8, self.9, self.10, self.11).generates(drawn_since(d3, src.drawn()), Err(e)));
                    lemma_drawn_since_concat(d2, d3, src.drawn());
                    assert((self.2, self.3, self.4, self.5, self.6, self.7, self.8, self.9, self.10, self.11).generates(drawn_since(d2, src.drawn()), Err(e)));
                    lemma_drawn_since_concat(d1, d2, src.drawn());
                    assert((self.1, self.2, self.3, self.4, self.5, self.6, self.7, self.8, self.9, self.10, self.11).generates(drawn_since(d1, src.drawn()), Err(e)));
                    lemma_drawn_since_concat(d0, d1, src.drawn());
                    assert((*self).generates(drawn_since(d0, src.drawn()), Err(e)));
                }
                return Err(e);
            },
        };
        let ghost d4 = src.drawn();
        let g = match self.4.generate(src) {
            Ok(v) => v,
            Err(e) => {
                proof {
                    assert((self.4, self.5, self.6, self.7, self.8, self.9, self.10, self.11).generates(drawn_since(d4, src.drawn()), Err(e)));
                    lemma_drawn_since_concat(d3, d4, src.drawn());
                    assert((self.3, self.4, self.5, self.6, self.7, self.8, self.9, self.10, self.11).generates(drawn_since(d3, src.drawn()), Err(e)));
                    lemma_drawn_since_concat(d2, d3, src.drawn());
                    assert((self.2, self.3, self.4, self.5, self.6, self.7, self.8, self.9, self.10, self.11).generates(drawn_since(d2, src.drawn()), Err(e)));
                    lemma_drawn_since_concat(d1, d2, src.drawn());
                    assert((self.1, self.2, self.3, self.4, self.5, self.6, self.7, self.8, self.9, self.10, self.11).generates(drawn_since(d1, src.drawn()), Err(e)));
                    lemma_drawn_since_concat(d0, d1, src.drawn());
                    assert((*self).generates(drawn_since(d0, src.drawn()), Err(e)));
                }
                return Err(e);
            },
        };
        let ghost d5 = src.drawn();
        let h = match self.5.generate(src) {
            Ok(v) => v,
            Err(e) => {
                proof {
                    assert((self.5, self.6, self.7, self.8, self.9, self.10, self.11).generates(drawn_since(d5, src.drawn()), Err(e)));
                    lemma_drawn_since_concat(d4, d5, src.drawn());
                    assert((self.4, self.5, self.6, self.7, self.8, self.9, self.10, self.11).generates(drawn_since(d4, src.drawn()), Err(e)));
                    lemma_drawn_since_concat(d3, d4, src.drawn());
                    assert((self.3, self.4, self.5, self.6, self.7, self.8, self.9, self.10, self.11).generates(drawn_since(d3, src.drawn()), Err(e)));
                    lemma_drawn_since_concat(d2, d3, src.drawn());
                    assert((self.2, self.3, self.4, self.5, self.6, self.7, self.8, self.9, self.10, self.11).generates(drawn_since(d2, src.drawn()), Err(e)));
                    lemma_drawn_since_concat(d1, d2, src.drawn());
                    assert((self.1, self.2, self.3, self.4, self.5, self.6, self.7, self.8, self.9, self.10, self.11).generates(drawn_since(d1, src.drawn()), Err(e)));
                    lemma_drawn_since_concat(d0, d1, src.drawn());
                    assert((*self).generates(drawn_since(d0, src.drawn()), Err(e)));
                }
                return Err(e);
            },
        };
        let ghost d6 = src.drawn();
        let j = match self.6.generate(src) {
            Ok(v) => v,
            Err(e) => {
                proof {
                    assert((self.6, self.7, self.8, self.9, self.10, self.11).generates(drawn_since(d6, src.drawn()), Err(e)));
                    lemma_drawn_since_concat(d5, d6, src.drawn());
                    assert((self.5, self.6, self.7, self.8, self.9, self.10, self.11).generates(drawn_since(d5, src.drawn()), Err(e)));
                    lemma_drawn_since_concat(d4, d5, src.drawn());
                    assert((self.4, self.5, self.6, self.7, self.8, self.9, self.10, self.11).generates(drawn_since(d4, src.drawn()), Err(e)));
                    lemma_drawn_since_concat(d3, d4, src.drawn());
                    assert((self.3, self.4, self.5, self.6, self.7, self.8, self.9, self.10, self.11).generates(drawn_since(d3, src.drawn()), Err(e)));
                    lemma_drawn_since_concat(d2, d3, src.drawn());
                    assert((self.2, self.3, self.4, self.5, self.6, self.7, self.8, self.9, self.10, self.11).generates(drawn_since(d2, src.drawn()), Err(e)));
                    lemma_drawn_since_concat(d1, d2, src.drawn());
                    assert((self.1, self.2, self.3, self.4, self.5, self.6, self.7, self.8, self.9, self.10, self.11).generates(drawn_since(d1, src.drawn()), Err(e)));
                    lemma_drawn_since_concat(d0, d1, src.drawn());
                    assert((*self).generates(drawn_since(d0, src.drawn()), Err(e)));
                }
                return Err(e);
            },
        };
        let ghost d7 = src.drawn();
        let l = match self.7.generate(src) {
            Ok(v) => v,
            Err(e) => {
                proof {
                    assert((self.7, self.8, self.9, self.10, self.11).generates(drawn_since(d7, src.drawn()), Err(e)));
                    lemma_drawn_since_concat(d6, d7, src.drawn());
                    assert((self.6, self.7, self.8, self.9, self.10, self.11).generates(drawn_since(d6, src.drawn()), Err(e)));
                    lemma_drawn_since_concat(d5, d6, src.drawn());
                    assert((self.5, self.6, self.7, self.8, self.9, self.10, self.11).generates(drawn_since(d5, src.drawn()), Err(e)));
                    lemma_drawn_since_concat(d4, d5, src.drawn());
                    assert((self.4, self.5, self.6, self.7, self.8, self.9, self.10, self.11).generates(drawn_since(d4, src.drawn()), Err(e)));
                    lemma_drawn_since_concat(d3, d4, src.drawn());
                    assert((self.3, self.4, self.5, self.6, self.7, self.8, self.9, self.10, self.11).generates(drawn_since(d3, src.drawn()), Err(e)));
                    lemma_drawn_since_concat(d2, d3, src.drawn());
                    assert((self.2, self.3, self.4, self.5, self.6, self.7, self.8, self.9, self.10, self.11).generates(drawn_since(d2, src.drawn()), Err(e)));
                    lemma_drawn_since_concat(d1, d2, src.drawn());
                    assert((self.1, self.2, self.3, self.4, self.5, self.6, self.7, self.8, self.9, self.10, self.11).generates(drawn_since(d1, src.drawn()), Err(e)));
                    lemma_drawn_since_concat(d0, d1, src.drawn());
                    assert((*self).generates(drawn_since(d0, src.drawn()), Err(e)));
                }
                return Err(e);
            },
        };
        let ghost d8 = src.drawn();
        let m = match self.8.generate(src) {
            Ok(v) => v,
            Err(e) => {
                proof {
                    assert((self.8, self.9, self.10, self.11).generates(drawn_since(d8, src.drawn()), Err(e)));
                    lemma_drawn_since_concat(d7, d8, src.drawn());
                    assert((self.7, self.8, self.9, self.10, self.11).generates(drawn_since(d7, src.drawn()), Err(e)));
                    lemma_drawn_since_concat(d6, d7, src.drawn());
                    assert((self.6, self.7, self.8, self.9, self.10, self.11).generates(drawn_since(d6, src.drawn()), Err(e)));
                    lemma_drawn_since_concat(d5, d6, src.drawn());
                    assert((self.5, self.6, self.7, self.8, self.9, self.10, self.11).generates(drawn_since(d5, src.drawn()), Err(e)));
                    lemma_drawn_since_concat(d4, d5, src.drawn());
                    assert((self.4, self.5, self.6, self.7, self.8, self.9, self.10, self.11).generates(drawn_since(d4, src.drawn()), Err(e)));
                    lemma_drawn_since_concat(d3, d4, src.drawn());
                    assert((self.3, self.4, self.5, self.6, self.7, self.8, self.9, self.10, self.11).generates(drawn_since(d3, src.drawn()), Err(e)));
                    lemma_drawn_since_concat(d2, d3, src.drawn());
                    assert((self.2, self.3, self.4, self.5, self.6, self.7, self.8, self.9, self.10, self.11).generates(drawn_since(d2, src.drawn()), Err(e)));
                    lemma_drawn_since_concat(d1, d2, src.drawn());
                    assert((self.1, self.2, self.3, self.4, self.5, self.6, self.7, self.8, self.9, self.10, self.11).generates(drawn_since(d1, src.drawn()), Err(e)));
                    lemma_drawn_since_concat(d0, d1, src.drawn());
                    assert((*self).generates(drawn_since(d0, src.drawn()), Err(e)));
                }
                return Err(e);
            },
        };
        let ghost d9 = src.drawn();
        let n = match self.9.generate(src) {
            Ok(v) => v,
            Err(e) => {
                proof {
                    assert((self.9, self.10, self.11).generates(drawn_since(d9, src.drawn()), Err(e)));
                    lemma_drawn_since_concat(d8, d9, src.drawn());
                    assert((self.8, self.9, self.10, self.11).generates(drawn_since(d8, src.drawn()), Err(e)));
                    lemma_drawn_since_concat(d7, d8, src.drawn());
                    assert((self.7, self.8, self.9, self.10, self.11).generates(drawn_since(d7, src.drawn()), Err(e)));
                    lemma_drawn_since_concat(d6, d7, src.drawn());
                    assert((self.6, self.7, self.8, self.9, self.10, self.11).generates(drawn_since(d6, src.drawn()), Err(e)));
                    lemma_drawn_since_concat(d5, d6, src.drawn());
                    assert((self.5, self.6, self.7, self.8, self.9, self.10, self.11).generates(drawn_since(d5, src.drawn()), Err(e)));
                    lemma_drawn_since_concat(d4, d5, src.drawn());
                    assert((self.4, self.5, self.6, self.7, self.8, self.9, self.10, self.11).generates(drawn_since(d4, src.drawn()), Err(e)));
                    lemma_drawn_since_concat(d3, d4, src.drawn());
                    assert((self.3, self.4, self.5, self.6, self.7, self.8, self.9, self.10, self.11).generates(drawn_since(d3, src.drawn()), Err(e)));
                    lemma_drawn_since_concat(d2, d3, src.drawn());
                    assert((self.2, self.3, self.4, self.5, self.6, self.7, self.8, self.9, self.10, self.11).generates(drawn_since(d2, src.drawn()), Err(e)));
                    lemma_drawn_since_concat(d1, d2, src.drawn());
                    assert((self.1, self.2, self.3, self.4, self.5, self.6, self.7, self.8, self.9, self.10, self.11).generates(drawn_since(d1, src.drawn()), Err(e)));
                    lemma_drawn_since_concat(d0, d1, src.drawn());
                    assert((*self).generates(drawn_since(d0, src.drawn()), Err(e)));
                }
                return Err(e);
            },
        };
        let ghost d10 = src.drawn();
        let o = match self.10.generate(src) {
            Ok(v) => v,
            Err(e) => {
                proof {
                    assert((self.10, self.11).generates(drawn_since(d10, src.drawn()), Err(e)));
                    lemma_drawn_since_concat(d9, d10, src.drawn());
                    assert((self.9, self.10, self.11).generates(drawn_since(d9, src.drawn()), Err(e)));
                    lemma_drawn_since_concat(d8, d9, src.drawn());
                    assert((self.8, self.9, self.10, self.11).generates(drawn_since(d8, src.drawn()), Err(e)));
                    lemma_drawn_since_concat(d7, d8, src.drawn());
                    assert((self.7, self.8, self.9, self.10, self.11).generates(drawn_since(d7, src.drawn()), Err(e)));
                    lemma_drawn_since_concat(d6, d7, src.drawn());
                    assert((self.6, self.7, self.8, self.9, self.10, self.11).generates(drawn_since(d6, src.drawn()), Err(e)));
                    lemma_drawn_since_concat(d5, d6, src.drawn());
                    assert((self.5, self.6, self.7, self.8, self.9, self.10, self.11).generates(drawn_since(d5, src.drawn()), Err(e)));
                    lemma_drawn_since_concat(d4, d5, src.drawn());
                    assert((self.4, self.5, self.6, self.7, self.8, self.9, self.10, self.11).generates(drawn_since(d4, src.drawn()), Err(e)));
                    lemma_drawn_since_concat(d3, d4, src.drawn());
                    assert((self.3, self.4, self.5, self.6, self.7, self.8, self.9, self.10, self.11).generates(drawn_since(d3, src.drawn()), Err(e)));
                    lemma_drawn_since_concat(d2, d3, src.drawn());
                    assert((self.2, self.3, self.4, self.5, self.6, self.7, self.8, self.9, self.10, self.11).generates(drawn_since(d2, src.drawn()), Err(e)));
                    lemma_drawn_since_concat(d1, d2, src.drawn());
                    assert((self.1, self.2, self.3, self.4, self.5, self.6, self.7, self.8, self.9, self.10, self.11).generates(drawn_since(d1, src.drawn()), Err(e)));
                    lemma_drawn_since_concat(d0, d1, src.drawn());
                    assert((*self).generates(drawn_since(d0, src.drawn()), Err(e)));
                }
                return Err(e);
            },
        };
        let ghost d11 = src.drawn();
        let q = match self.11.generate(src) {
            Ok(v) => v,
            Err(e) => {
                proof {
                    lemma_drawn_since_concat(d10, d11, src.drawn());
                    assert((self.10, self.11).generates(drawn_since(d10, src.drawn()), Err(e)));
                    lemma_drawn_since_concat(d9, d10, src.drawn());
                    assert((self.9, self.10, self.11).generates(drawn_since(d9, src.drawn()), Err(e)));
                    lemma_drawn_since_concat(d8, d9, src.drawn());
                    assert((self.8, self.9, self.10, self.11).generates(drawn_since(d8, src.drawn()), Err(e)));
                    lemma_drawn_since_concat(d7, d8, src.drawn());
                    assert((self.7, self.8, self.9, self.10, self.11).generates(drawn_since(d7, src.drawn()), Err(e)));
                    lemma_drawn_since_concat(d6, d7, src.drawn());
                    assert((self.6, self.7, self.8, self.9, self.10, self.11).generates(drawn_since(d6, src.drawn()), Err(e)));
                    lemma_drawn_since_concat(d5, d6, src.drawn());
                    assert((self.5, self.6, self.7, self.8, self.9, self.10, self.11).generates(drawn_since(d5, src.drawn()), Err(e)));
                    lemma_drawn_since_concat(d4, d5, src.drawn());
                    assert((self.4, self.5, self.6, self.7, self.8, self.9, self.10, self.11).generates(drawn_since(d4, src.drawn()), Err(e)));
                    lemma_drawn_since_concat(d3, d4, src.drawn());
                    assert((self.3, self.4, self.5, self.6, self.7, self.8, self.9, self.10, self.11).generates(drawn_since(d3, src.drawn()), Err(e)));
                    lemma_drawn_since_concat(d2, d3, src.drawn());
                    assert((self.2, self.3, self.4, self.5, self.6, self.7, self.8, self.9, self.10, self.11).generates(drawn_since(d2, src.drawn()), Err(e)));
                    lemma_drawn_since_concat(d1, d2, src.drawn());
                    assert((self.1, self.2, self.3, self.4, self.5, self.6, self.7, self.8, self.9, self.10, self.11).generates(drawn_since(d1, src.drawn()), Err(e)));
                    lemma_drawn_since_concat(d0, d1, src.drawn());
                    assert((*self).generates(drawn_since(d0, src.drawn()), Err(e)));
                }
                return Err(e);
            },
        };
        proof {
            lemma_drawn_since_concat(d10, d11, src.drawn());
            assert((self.10, self.11).0 == self.10);
            assert((self.10, self.11).generates(drawn_since(d10, src.drawn()), Ok((o, q))));
            lemma_drawn_since_concat(d9, d10, src.drawn());
            assert((self.9, self.10, self.11).0 == self.9);
            assert((self.9, self.10, self.11).generates(drawn_since(d9, src.drawn()), Ok((n, o, q))));
            lemma_drawn_since_concat(d8, d9, src.drawn());
            assert((self.8, self.9, self.10, self.11).0 == self.8);
            assert((self.8, self.9, self.10, self.11).generates(drawn_since(d8, src.drawn()), Ok((m, n, o, q))));
            lemma_drawn_since_concat(d7, d8, src.drawn());
            assert((self.7, self.8, self.9, self.10, self.11).0 == self.7);
            assert((self.7, self.8, self.9, self.10, self.11).generates(drawn_since(d7, src.drawn()), Ok((l, m, n, o, q))));
            lemma_drawn_since_concat(d6, d7, src.drawn());
            assert((self.6, self.7, self.8, self.9, self.10, self.11).0 == self.6);
            assert((self.6, self.7, self.8, self.9, self.10, self.11).generates(drawn_since(d6, src.drawn()), Ok((j, l, m, n, o, q))));
            lemma_drawn_since_concat(d5, d6, src.drawn());
            assert((self.5, self.6, self.7, self.8, self.9, self.10, self.11).0 == self.5);
            assert((self.5, self.6, self.7, self.8, self.9, self.10, self.11).generates(drawn_since(d5, src.drawn()), Ok((h, j, l, m, n, o, q))));
            lemma_drawn_since_concat(d4, d5, src.drawn());
            assert((self.4, self.5, self.6, self.7, self.8, self.9, self.10, self.11).0 == self.4);
            assert((self.4, self.5, self.6, self.7, self.8, self.9, self.10, self.11).generates(drawn_since(d4, src.drawn()), Ok((g, h, j, l, m, n, o, q))));
            lemma_drawn_since_concat(d3, d4, src.drawn());
            assert((self.3, self.4, self.5, self.6, self.7, self.8, self.9, self.10, self.11).0 == self.3);
            assert((self.3, self.4, self.5, self.6, self.7, self.8, self.9, self.10, self.11).generates(drawn_since(d3, src.drawn()), Ok((f, g, h, j, l, m, n, o, q))));
            lemma_drawn_since_concat(d2, d3, src.drawn());
            assert((self.2, self.3, self.4, self.5, self.6, self.7, self.8, self.9, self.10, self.11).0 == self.2);
            assert((self.2, self.3, self.4, self.5, self.6, self.7, self.8, self.9, self.10, self.11).generates(drawn_since(d2, src.drawn()), Ok((c, f, g, h, j, l, m, n, o, q))));
            lemma_drawn_since_concat(d1, d2, src.drawn());
            assert((self.1, self.2, self.3, self.4, self.5, self.6, self.7, self.8, self.9, self.10, self.11).0 == self.1);
            assert((self.1, self.2, self.3, self.4, self.5, self.6, self.7, self.8, self.9, self.10, self.11).generates(drawn_since(d1, src.drawn()), Ok((b, c, f, g, h, j, l, m, n, o, q))));
            lemma_drawn_since_concat(d0, d1, src.drawn());
            assert((*self).generates(drawn_since(d0, src.drawn()), Ok((a, b, c, f, g, h, j, l, m, n, o, q))));
        }
        Ok((a, b, c, f, g, h, j, l, m, n, o, q))
    }
}

/// Two starts of one string of bytes: the shorter is a start of the longer.
pub proof fn lemma_prefixes_comparable(a: Seq<u8>, b: Seq<u8>, c: Seq<u8>)
    requires
        a.is_prefix_of(c),
        b.is_prefix_of(c),
    ensures
        a.len() <= b.len() ==> a.is_prefix_of(b),
        b.len() <= a.len() ==> b.is_prefix_of(a),
{
}

/// Where the first generator of a pair stopped drawing, and what it made.
spec fn pair_head<A: Generator, B: Generator>(
    g: (A, B),
    d: Seq<u8>,
    r: Maybe<(A::Item, B::Item)>,
) -> (int, Maybe<A::Item>) {
    match r {
        Ok((a, b)) => {
            let (k, x) = choose|k: int, x: A::Item|
                0 <= k <= d.len() && #[trigger] g.0.generates(d.take(k), Ok(x)) && x == a
                    && g.1.generates(d.skip(k), Ok(b));
            (k, Ok(x))
        },
        Err(e) => if g.0.generates(d, Err(e)) {
            (d.len() as int, Err(e))
        } else {
            let (k, x) = choose|k: int, x: A::Item|
                0 <= k <= d.len() && #[trigger] g.0.generates(d.take(k), Ok(x))
                    && g.1.generates(d.skip(k), Err(e));
            (k, Ok(x))
        },
    }
}

/// A pair of generators that are the same for the same bytes is so too.
pub proof fn law_pairs_deterministic<A: Generator, B: Generator>(g: (A, B))
    requires
        deterministic(g.0),
        deterministic(g.1),
    ensures
        deterministic(g),
{
    assert forall|d1: Seq<u8>, d2: Seq<u8>, r1: Maybe<(A::Item, B::Item)>, r2: Maybe<(A::Item, B::Item)>|
        g.generates(d1, r1) && g.generates(d2, r2) && d1.is_prefix_of(d2) implies d1 == d2 && r1
        == r2 by {
        let (k1, h1) = pair_head(g, d1, r1);
        let (k2, h2) = pair_head(g, d2, r2);
        assert(0 <= k1 <= d1.len() && g.0.generates(d1.take(k1), h1));
        assert(0 <= k2 <= d2.len() && g.0.generates(d2.take(k2), h2));
        assert(d1.take(k1).is_prefix_of(d2));
        lemma_prefixes_comparable(d1.take(k1), d2.take(k2), d2);
        assert(d1.take(k1) == d2.take(k2) && h1 == h2);
        assert(k1 == k2);
        if h1 is Ok {
            assert(d1.skip(k1).is_prefix_of(d2.skip(k2)));
            assert(d1 =~= d1.take(k1) + d1.skip(k1));
            assert(d2 =~= d2.take(k2) + d2.skip(k2));
        } else {
            assert(d1.take(k1) =~= d1);
            assert(d2.take(k2) =~= d2);
        }
    }
}

/// Where the first generator of a tuple of 3 stopped drawing, and what it
/// made.
spec fn tuple_3_head<A: Generator, B: Generator, C: Generator>(
    gs: (A, B, C),
    d: Seq<u8>,
    r: Maybe<(A::Item, B::Item, C::Item)>,
) -> (int, Maybe<A::Item>) {
    match r {
        Ok((a, b, c)) => {
            let (k, x) = choose|k: int, x: A::Item|
                0 <= k <= d.len() && #[trigger] gs.0.generates(d.take(k), Ok(x)) && x == a
                    && (gs.1, gs.2).generates(d.skip(k), Ok((b, c)));
            (k, Ok(x))
        },
        Err(e) => if gs.0.generates(d, Err(e)) {
            (d.len() as int, Err(e))
        } else {
            let (k, x) = choose|k: int, x: A::Item|
                0 <= k <= d.len() && #[trigger] gs.0.generates(d.take(k), Ok(x))
                    && (gs.1, gs.2).generates(d.skip(k), Err(e));
            (k, Ok(x))
        },
    }
}

/// A tuple of 3 generators that are the same for the same bytes is so too.
pub proof fn law_tuples_3_deterministic<A: Generator, B: Generator, C: Generator>(gs: (A, B, C))
    requires
        deterministic(gs.0),
        deterministic(gs.1),
        deterministic(gs.2),
    ensures
        deterministic(gs),
{
    law_pairs_deterministic((gs.1, gs.2));
    assert forall|d1: Seq<u8>, d2: Seq<u8>, r1: Maybe<(A::Item, B::Item, C::Item)>, r2: Maybe<(A::Item, B::Item, C::Item)>|
        gs.generates(d1, r1) && gs.generates(d2, r2) && d1.is_prefix_of(d2) implies d1 == d2 && r1
        == r2 by {
        let (k1, h1) = tuple_3_head(gs, d1, r1);
        let (k2, h2) = tuple_3_head(gs, d2, r2);
        assert(0 <= k1 <= d1.len() && gs.0.generates(d1.take(k1), h1));
        assert(0 <= k2 <= d2.len() && gs.0.generates(d2.take(k2), h2));
        assert(d1.take(k1).is_prefix_of(d2));
        lemma_prefixes_comparable(d1.take(k1), d2.take(k2), d2);
        assert(d1.take(k1) == d2.take(k2) && h1 == h2);
        assert(k1 == k2);
        if h1 is Ok {
            assert(d1.skip(k1).is_prefix_of(d2.skip(k2)));
            assert(d1 =~= d1.take(k1) + d1.skip(k1));
            assert(d2 =~= d2.take(k2) + d2.skip(k2));
        } else {
            assert(d1.take(k1) =~= d1);
            assert(d2.take(k2) =~= d2);
        }
    }
}

/// Where the first generator of a tuple of 4 stopped drawing, and what it
/// made.
spec fn tuple_4_head<A: Generator, B: Generator, C: Generator, D: Generator>(
    gs: (A, B, C, D),
    d: Seq<u8>,
    r: Maybe<(A::Item, B::Item, C::Item, D::Item)>,
) -> (int, Maybe<A::Item>) {
    match r {
        Ok((a, b, c, f)) => {
            let (k, x) = choose|k: int, x: A::Item|
                0 <= k <= d.len() && #[trigger] gs.0.generates(d.take(k), Ok(x)) && x == a
                    && (gs.1, gs.2, gs.3).generates(d.skip(k), Ok((b, c, f)));
            (k, Ok(x))
        },
        Err(e) => if gs.0.generates(d, Err(e)) {
            (d.len() as int, Err(e))
        } else {
            let (k, x) = choose|k: int, x: A::Item|
                0 <= k <= d.len() && #[trigger] gs.0.generates(d.take(k), Ok(x))
                    && (gs.1, gs.2, gs.3).generates(d.skip(k), Err(e));
            (k, Ok(x))
        },
    }
}

/// A tuple of 4 generators that are the same for the same bytes is so too.
pub proof fn law_tuples_4_deterministic<A: Generator, B: Generator, C: Generator, D: Generator>(gs: (A, B, C, D))
    requires
        deterministic(gs.0),
        deterministic(gs.1),
        deterministic(gs.2),
        deterministic(gs.3),
    ensures
        deterministic(gs),
{
    law_tuples_3_deterministic((gs.1, gs.2, gs.3));
    assert forall|d1: Seq<u8>, d2: Seq<u8>, r1: Maybe<(A::Item, B::Item, C::Item, D::Item)>, r2: Maybe<(A::Item, B::Item, C::Item, D::Item)>|
        gs.generates(d1, r1) && gs.generates(d2, r2) && d1.is_prefix_of(d2) implies d1 == d2 && r1
        == r2 by {
        let (k1, h1) = tuple_4_head(gs, d1, r1);
        let (k2, h2) = tuple_4_head(gs, d2, r2);
        assert(0 <= k1 <= d1.len() && gs.0.generates(d1.take(k1), h1));
        assert(0 <= k2 <= d2.len() && gs.0.generates(d2.take(k2), h2));
        assert(d1.take(k1).is_prefix_of(d2));
        lemma_prefixes_comparable(d1.take(k1), d2.take(k2), d2);
        assert(d1.take(k1) == d2.take(k2) && h1 == h2);
        assert(k1 == k2);
        if h1 is Ok {
            assert(d1.skip(k1).is_prefix_of(d2.skip(k2)));
            assert(d1 =~= d1.take(k1) + d1.skip(k1));
            assert(d2 =~= d2.take(k2) + d2.skip(k2));
        } else {
            assert(d1.take(k1) =~= d1);
            assert(d2.take(k2) =~= d2);
        }
    }
}

/// Where the first generator of a tuple of 5 stopped drawing, and what it
/// made.
spec fn tuple_5_head<A: Generator, B: Generator, C: Generator, D: Generator, E: Generator>(
    gs: (A, B, C, D, E),
    d: Seq<u8>,
    r: Maybe<(A::Item, B::Item, C::Item, D::Item, E::Item)>,
) -> (int, Maybe<A::Item>) {
    match r {
        Ok((a, b, c, f, g)) => {
            let (k, x) = choose|k: int, x: A::Item|
                0 <= k <= d.len() && #[trigger] gs.0.generates(d.take(k), Ok(x)) && x == a
                    && (gs.1, gs.2, gs.3, gs.4).generates(d.skip(k), Ok((b, c, f, g)));
            (k, Ok(x))
        },
        Err(e) => if gs.0.generates(d, Err(e)) {
            (d.len() as int, Err(e))
        } else {
            let (k, x) = choose|k: int, x: A::Item|
                0 <= k <= d.len() && #[trigger] gs.0.generates(d.take(k), Ok(x))
                    && (gs.1, gs.2, gs.3, gs.4).generates(d.skip(k), Err(e));
            (k, Ok(x))
        },
    }
}

/// A tuple of 5 generators that are the same for the same bytes is so too.
pub proof fn law_tuples_5_deterministic<A: Generator, B: Generator, C: Generator, D: Generator, E: Generator>(gs: (A, B, C, D, E))
    requires
        deterministic(gs.0),
        deterministic(gs.1),
        deterministic(gs.2),
        deterministic(gs.3),
        deterministic(gs.4),
    ensures
        deterministic(gs),
{
    law_tuples_4_deterministic((gs.1, gs.2, gs.3, gs.4));
    assert forall|d1: Seq<u8>, d2: Seq<u8>, r1: Maybe<(A::Item, B::Item, C::Item, D::Item, E::Item)>, r2: Maybe<(A::Item, B::Item, C::Item, D::Item, E::Item)>|
        gs.generates(d1, r1) && gs.generates(d2, r2) && d1.is_prefix_of(d2) implies d1 == d2 && r1
        == r2 by {
        let (k1, h1) = tuple_5_head(gs, d1, r1);
        let (k2, h2) = tuple_5_head(gs, d2, r2);
        assert(0 <= k1 <= d1.len() && gs.0.generates(d1.take(k1), h1));
        assert(0 <= k2 <= d2.len() && gs.0.generates(d2.take(k2), h2));
        assert(d1.take(k1).is_prefix_of(d2));
        lemma_prefixes_comparable(d1.take(k1), d2.take(k2), d2);
        assert(d1.take(k1) == d2.take(k2) && h1 == h2);
        assert(k1 == k2);
        if h1 is Ok {
            assert(d1.skip(k1).is_prefix_of(d2.skip(k2)));
            assert(d1 =~= d1.take(k1) + d1.skip(k1));
            assert(d2 =~= d2.take(k2) + d2.skip(k2));
        } else {
            assert(d1.take(k1) =~= d1);
            assert(d2.take(k2) =~= d2);
        }
    }
}

/// Where the first generator of a tuple of 6 stopped drawing, and what it
/// made.
spec fn tuple_6_head<A: Generator, B: Generator, C: Generator, D: Generator, E: Generator, F: Generator>(
    gs: (A, B, C, D, E, F),
    d: Seq<u8>,
    r: Maybe<(A::Item, B::Item, C::Item, D::Item, E::Item, F::Item)>,
) -> (int, Maybe<A::Item>) {
    match r {
        Ok((a, b, c, f, g, h)) => {
            let (k, x) = choose|k: int, x: A::Item|
                0 <= k <= d.len() && #[trigger] gs.0.generates(d.take(k), Ok(x)) && x == a
                    && (gs.1, gs.2, gs.3, gs.4, gs.5).generates(d.skip(k), Ok((b, c, f, g, h)));
            (k, Ok(x))
        },
        Err(e) => if gs.0.generates(d, Err(e)) {
            (d.len() as int, Err(e))
        } else {
            let (k, x) = choose|k: int, x: A::Item|
                0 <= k <= d.len() && #[trigger] gs.0.generates(d.take(k), Ok(x))
                    && (gs.1, gs.2, gs.3, gs.4, gs.5).generates(d.skip(k), Err(e));
            (k, Ok(x))
        },
    }
}

/// A tuple of 6 generators that are the same for the same bytes is so too.
pub proof fn law_tuples_6_deterministic<A: Generator, B: Generator, C: Generator, D: Generator, E: Generator, F: Generator>(gs: (A, B, C, D, E, F))
    requires
        deterministic(gs.0),
        deterministic(gs.1),
        deterministic(gs.2),
        deterministic(gs.3),
        deterministic(gs.4),
        deterministic(gs.5),
    ensures
        deterministic(gs),
{
    law_tuples_5_deterministic((gs.1, gs.2, gs.3, gs.4, gs.5));
    assert forall|d1: Seq<u8>, d2: Seq<u8>, r1: Maybe<(A::Item, B::Item, C::Item, D::Item, E::Item, F::Item)>, r2: Maybe<(A::Item, B::Item, C::Item, D::Item, E::Item, F::Item)>|
        gs.generates(d1, r1) && gs.generates(d2, r2) && d1.is_prefix_of(d2) implies d1 == d2 && r1
        == r2 by {
        let (k1, h1) = tuple_6_head(gs, d1, r1);
        let (k2, h2) = tuple_6_head(gs, d2, r2);
        assert(0 <= k1 <= d1.len() && gs.0.generates(d1.take(k1), h1));
        assert(0 <= k2 <= d2.len() && gs.0.generates(d2.take(k2), h2));
        assert(d1.take(k1).is_prefix_of(d2));
        lemma_prefixes_comparable(d1.take(k1), d2.take(k2), d2);
        assert(d1.take(k1) == d2.take(k2) && h1 == h2);
        assert(k1 == k2);
        if h1 is Ok {
            assert(d1.skip(k1).is_prefix_of(d2.skip(k2)));
            assert(d1 =~= d1.take(k1) + d1.skip(k1));
            assert(d2 =~= d2.take(k2) + d2.skip(k2));
        } else {
            assert(d1.take(k1) =~= d1);
            assert(d2.take(k2) =~= d2);
        }
    }
}

/// Where the first generator of a tuple of 7 stopped drawing, and what it
/// made.
spec fn tuple_7_head<A: Generator, B: Generator, C: Generator, D: Generator, E: Generator, F: Generator, G: Generator>(
    gs: (A, B, C, D, E, F, G),
    d: Seq<u8>,
    r: Maybe<(A::Item, B::Item, C::Item, D::Item, E::Item, F::Item, G::Item)>,
) -> (int, Maybe<A::Item>) {
    match r {
        Ok((a, b, c, f, g, h, j)) => {
            let (k, x) = choose|k: int, x: A::Item|
                0 <= k <= d.len() && #[trigger] gs.0.generates(d.take(k), Ok(x)) && x == a
                    && (gs.1, gs.2, gs.3, gs.4, gs.5, gs.6).generates(d.skip(k), Ok((b, c, f, g, h, j)));
            (k, Ok(x))
        },
        Err(e) => if gs.0.generates(d, Err(e)) {
            (d.len() as int, Err(e))
        } else {
            let (k, x) = choose|k: int, x: A::Item|
                0 <= k <= d.len() && #[trigger] gs.0.generates(d.take(k), Ok(x))
                    && (gs.1, gs.2, gs.3, gs.4, gs.5, gs.6).generates(d.skip(k), Err(e));
            (k, Ok(x))
        },
    }
}

/// A tuple of 7 generators that are the same for the same bytes is so too.
pub proof fn law_tuples_7_deterministic<A: Generator, B: Generator, C: Generator, D: Generator, E: Generator, F: Generator, G: Generator>(gs: (A, B, C, D, E, F, G))
    requires
        deterministic(gs.0),
        deterministic(gs.1),
        deterministic(gs.2),
        deterministic(gs.3),
        deterministic(gs.4),
        deterministic(gs.5),
        deterministic(gs.6),
    ensures
        deterministic(gs),
{
    law_tuples_6_deterministic((gs.1, gs.2, gs.3, gs.4, gs.5, gs.6));
    assert forall|d1: Seq<u8>, d2: Seq<u8>, r1: Maybe<(A::Item, B::Item, C::Item, D::Item, E::Item, F::Item, G::Item)>, r2: Maybe<(A::Item, B::Item, C::Item, D::Item, E::Item, F::Item, G::Item)>|
        gs.generates(d1, r1) && gs.generates(d2, r2) && d1.is_prefix_of(d2) implies d1 == d2 && r1
        == r2 by {
        let (k1, h1) = tuple_7_head(gs, d1, r1);
        let (k2, h2) = tuple_7_head(gs, d2, r2);
        assert(0 <= k1 <= d1.len() && gs.0.generates(d1.take(k1), h1));
        assert(0 <= k2 <= d2.len() && gs.0.generates(d2.take(k2), h2));
        assert(d1.take(k1).is_prefix_of(d2));
        lemma_prefixes_comparable(d1.take(k1), d2.take(k2), d2);
        assert(d1.take(k1) == d2.take(k2) && h1 == h2);
        assert(k1 == k2);
        if h1 is Ok {
            assert(d1.skip(k1).is_prefix_of(d2.skip(k2)));
            assert(d1 =~= d1.take(k1) + d1.skip(k1));
            assert(d2 =~= d2.take(k2) + d2.skip(k2));
        } else {
            assert(d1.take(k1) =~= d1);
            assert(d2.take(k2) =~= d2);
        }
    }
}

/// Where the first generator of a tuple of 8 stopped drawing, and what it
/// made.
spec fn tuple_8_head<A: Generator, B: Generator, C: Generator, D: Generator, E: Generator, F: Generator, G: Generator, H: Generator>(
    gs: (A, B, C, D, E, F, G, H),
    d: Seq<u8>,
    r: Maybe<(A::Item, B::Item, C::Item, D::Item, E::Item, F::Item, G::Item, H::Item)>,
) -> (int, Maybe<A::Item>) {
    match r {
        Ok((a, b, c, f, g, h, j, l)) => {
            let (k, x) = choose|k: int, x: A::Item|
                0 <= k <= d.len() && #[trigger] gs.0.generates(d.take(k), Ok(x)) && x == a
                    && (gs.1, gs.2, gs.3, gs.4, gs.5, gs.6, gs.7).generates(d.skip(k), Ok((b, c, f, g, h, j, l)));
            (k, Ok(x))
        },
        Err(e) => if gs.0.generates(d, Err(e)) {
            (d.len() as int, Err(e))
        } else {
            let (k, x) = choose|k: int, x: A::Item|
                0 <= k <= d.len() && #[trigger] gs.0.generates(d.take(k), Ok(x))
                    && (gs.1, gs.2, gs.3, gs.4, gs.5, gs.6, gs.7).generates(d.skip(k), Err(e));
            (k, Ok(x))
        },
    }
}

/// A tuple of 8 generators that are the same for the same bytes is so too.
pub proof fn law_tuples_8_deterministic<A: Generator, B: Generator, C: Generator, D: Generator, E: Generator, F: Generator, G: Generator, H: Generator>(gs: (A, B, C, D, E, F, G, H))
    requires
        deterministic(gs.0),
        deterministic(gs.1),
        deterministic(gs.2),
        deterministic(gs.3),
        deterministic(gs.4),
        deterministic(gs.5),
        deterministic(gs.6),
        deterministic(gs.7),
    ensures
        deterministic(gs),
{
    law_tuples_7_deterministic((gs.1, gs.2, gs.3, gs.4, gs.5, gs.6, gs.7));
    assert forall|d1: Seq<u8>, d2: Seq<u8>, r1: Maybe<(A::Item, B::Item, C::Item, D::Item, E::Item, F::Item, G::Item, H::Item)>, r2: Maybe<(A::Item, B::Item, C::Item, D::Item, E::Item, F::Item, G::Item, H::Item)>|
        gs.generates(d1, r1) && gs.generates(d2, r2) && d1.is_prefix_of(d2) implies d1 == d2 && r1
        == r2 by {
        let (k1, h1) = tuple_8_head(gs, d1, r1);
        let (k2, h2) = tuple_8_head(gs, d2, r2);
        assert(0 <= k1 <= d1.len() && gs.0.generates(d1.take(k1), h1));
        assert(0 <= k2 <= d2.len() && gs.0.generates(d2.take(k2), h2));
        assert(d1.take(k1).is_prefix_of(d2));
        lemma_prefixes_comparable(d1.take(k1), d2.take(k2), d2);
        assert(d1.take(k1) == d2.take(k2) && h1 == h2);
        assert(k1 == k2);
        if h1 is Ok {
            assert(d1.skip(k1).is_prefix_of(d2.skip(k2)));
            assert(d1 =~= d1.take(k1) + d1.skip(k1));
            assert(d2 =~= d2.take(k2) + d2.skip(k2));
        } else {
            assert(d1.take(k1) =~= d1);
            assert(d2.take(k2) =~= d2);
        }
    }
}

/// Where the first generator of a tuple of 9 stopped drawing, and what it
/// made.
spec fn tuple_9_head<A: Generator, B: Generator, C: Generator, D: Generator, E: Generator, F: Generator, G: Generator, H: Generator, J: Generator>(
    gs: (A, B, C, D, E, F, G, H, J),
    d: Seq<u8>,
    r: Maybe<(A::Item, B::Item, C::Item, D::Item, E::Item, F::Item, G::Item, H::Item, J::Item)>,
) -> (int, Maybe<A::Item>) {
    match r {
        Ok((a, b, c, f, g, h, j, l, m)) => {
            let (k, x) = choose|k: int, x: A::Item|
                0 <= k <= d.len() && #[trigger] gs.0.generates(d.take(k), Ok(x)) && x == a
                    && (gs.1, gs.2, gs.3, gs.4, gs.5, gs.6, gs.7, gs.8).generates(d.skip(k), Ok((b, c, f, g, h, j, l, m)));
            (k, Ok(x))
        },
        Err(e) => if gs.0.generates(d, Err(e)) {
            (d.len() as int, Err(e))
        } else {
            let (k, x) = choose|k: int, x: A::Item|
                0 <= k <= d.len() && #[trigger] gs.0.generates(d.take(k), Ok(x))
                    && (gs.1, gs.2, gs.3, gs.4, gs.5, gs.6, gs.7, gs.8).generates(d.skip(k), Err(e));
            (k, Ok(x))
        },
    }
}

/// A tuple of 9 generators that are the same for the same bytes is so too.
pub proof fn law_tuples_9_deterministic<A: Generator, B: Generator, C: Generator, D: Generator, E: Generator, F: Generator, G: Generator, H: Generator, J: Generator>(gs: (A, B, C, D, E, F, G, H, J))
    requires
        deterministic(gs.0),
        deterministic(gs.1),
        deterministic(gs.2),
        deterministic(gs.3),
        deterministic(gs.4),
        deterministic(gs.5),
        deterministic(gs.6),
        deterministic(gs.7),
        deterministic(gs.8),
    ensures
        deterministic(gs),
{
    law_tuples_8_deterministic((gs.1, gs.2, gs.3, gs.4, gs.5, gs.6, gs.7, gs.8));
    assert forall|d1: Seq<u8>, d2: Seq<u8>, r1: Maybe<(A::Item, B::Item, C::Item, D::Item, E::Item, F::Item, G::Item, H::Item, J::Item)>, r2: Maybe<(A::Item, B::Item, C::Item, D::Item, E::Item, F::Item, G::Item, H::Item, J::Item)>|
        gs.generates(d1, r1) && gs.generates(d2, r2) && d1.is_prefix_of(d2) implies d1 == d2 && r1
        == r2 by {
        let (k1, h1) = tuple_9_head(gs, d1, r1);
        let (k2, h2) = tuple_9_head(gs, d2, r2);
        assert(0 <= k1 <= d1.len() && gs.0.generates(d1.take(k1), h1));
        assert(0 <= k2 <= d2.len() && gs.0.generates(d2.take(k2), h2));
        assert(d1.take(k1).is_prefix_of(d2));
        lemma_prefixes_comparable(d1.take(k1), d2.take(k2), d2);
        assert(d1.take(k1) == d2.take(k2) && h1 == h2);
        assert(k1 == k2);
        if h1 is Ok {
            assert(d1.skip(k1).is_prefix_of(d2.skip(k2)));
            assert(d1 =~= d1.take(k1) + d1.skip(k1));
            assert(d2 =~= d2.take(k2) + d2.skip(k2));
        } else {
            assert(d1.take(k1) =~= d1);
            assert(d2.take(k2) =~= d2);
        }
    }
}

/// Where the first generator of a tuple of 10 stopped drawing, and what it
/// made.
spec fn tuple_10_head<A: Generator, B: Generator, C: Generator, D: Generator, E: Generator, F: Generator, G: Generator, H: Generator, J: Generator, K: Generator>(
    gs: (A, B, C, D, E, F, G, H, J, K),
    d: Seq<u8>,
    r: Maybe<(A::Item, B::Item, C::Item, D::Item, E::Item, F::Item, G::Item, H::Item, J::Item, K::Item)>,
) -> (int, Maybe<A::Item>) {
    match r {
        Ok((a, b, c, f, g, h, j, l, m, n)) => {
            let (k, x) = choose|k: int, x: A::Item|
                0 <= k <= d.len() && #[trigger] gs.0.generates(d.take(k), Ok(x)) && x == a
                    && (gs.1, gs.2, gs.3, gs.4, gs.5, gs.6, gs.7, gs.8, gs.9).generates(d.skip(k), Ok((b, c, f, g, h, j, l, m, n)));
            (k, Ok(x))
        },
        Err(e) => if gs.0.generates(d, Err(e)) {
            (d.len() as int, Err(e))
        } else {
            let (k, x) = choose|k: int, x: A::Item|
                0 <= k <= d.len() && #[trigger] gs.0.generates(d.take(k), Ok(x))
                    && (gs.1, gs.2, gs.3, gs.4, gs.5, gs.6, gs.7, gs.8, gs.9).generates(d.skip(k), Err(e));
            (k, Ok(x))
        },
    }
}

/// A tuple of 10 generators that are the same for the same bytes is so too.
pub proof fn law_tuples_10_deterministic<A: Generator, B: Generator, C: Generator, D: Generator, E: Generator, F: Generator, G: Generator, H: Generator, J: Generator, K: Generator>(gs: (A, B, C, D, E, F, G, H, J, K))
    requires
        deterministic(gs.0),
        deterministic(gs.1),
        deterministic(gs.2),
        deterministic(gs.3),
        deterministic(gs.4),
        deterministic(gs.5),
        deterministic(gs.6),
        deterministic(gs.7),
        deterministic(gs.8),
        deterministic(gs.9),
    ensures
        deterministic(gs),
{
    law_tuples_9_deterministic((gs.1, gs.2, gs.3, gs.4, gs.5, gs.6, gs.7, gs.8, gs.9));
    assert forall|d1: Seq<u8>, d2: Seq<u8>, r1: Maybe<(A::Item, B::Item, C::Item, D::Item, E::Item, F::Item, G::Item, H::Item, J::Item, K::Item)>, r2: Maybe<(A::Item, B::Item, C::Item, D::Item, E::Item, F::Item, G::Item, H::Item, J::Item, K::Item)>|
        gs.generates(d1, r1) && gs.generates(d2, r2) && d1.is_prefix_of(d2) implies d1 == d2 && r1
        == r2 by {
        let (k1, h1) = tuple_10_head(gs, d1, r1);
        let (k2, h2) = tuple_10_head(gs, d2, r2);
        assert(0 <= k1 <= d1.len() && gs.0.generates(d1.take(k1), h1));
        assert(0 <= k2 <= d2.len() && gs.0.generates(d2.take(k2), h2));
        assert(d1.take(k1).is_prefix_of(d2));
        lemma_prefixes_comparable(d1.take(k1), d2.take(k2), d2);
        assert(d1.take(k1) == d2.take(k2) && h1 == h2);
        assert(k1 == k2);
        if h1 is Ok {
            assert(d1.skip(k1).is_prefix_of(d2.skip(k2)));
            assert(d1 =~= d1.take(k1) + d1.skip(k1));
            assert(d2 =~= d2.take(k2) + d2.skip(k2));
        } else {
            assert(d1.take(k1) =~= d1);
            assert(d2.take(k2) =~= d2);
        }
    }
}

/// Where the first generator of a tuple of 11 stopped drawing, and what it
/// made.
spec fn tuple_11_head<A: Generator, B: Generator, C: Generator, D: Generator, E: Generator, F: Generator, G: Generator, H: Generator, J: Generator, K: Generator, L: Generator>(
    gs: (A, B, C, D, E, F, G, H, J, K, L),
    d: Seq<u8>,
    r: Maybe<(A::Item, B::Item, C::Item, D::Item, E::Item, F::Item, G::Item, H::Item, J::Item, K::Item, L::Item)>,
) -> (int, Maybe<A::Item>) {
    match r {
        Ok((a, b, c, f, g, h, j, l, m, n, o)) => {
            let (k, x) = choose|k: int, x: A::Item|
                0 <= k <= d.len() && #[trigger] gs.0.generates(d.take(k), Ok(x)) && x == a
                    && (gs.1, gs.2, gs.3, gs.4, gs.5, gs.6, gs.7, gs.8, gs.9, gs.10).generates(d.skip(k), Ok((b, c, f, g, h, j, l, m, n, o)));
            (k, Ok(x))
        },
        Err(e) => if gs.0.generates(d, Err(e)) {
            (d.len() as int, Err(e))
        } else {
            let (k, x) = choose|k: int, x: A::Item|
                0 <= k <= d.len() && #[trigger] gs.0.generates(d.take(k), Ok(x))
                    && (gs.1, gs.2, gs.3, gs.4, gs.5, gs.6, gs.7, gs.8, gs.9, gs.10).generates(d.skip(k), Err(e));
            (k, Ok(x))
        },
    }
}

/// A tuple of 11 generators that are the same for the same bytes is so too.
#[verifier::spinoff_prover]
#[verifier::rlimit(40)]
pub proof fn law_tuples_11_deterministic<A: Generator, B: Generator, C: Generator, D: Generator, E: Generator, F: Generator, G: Generator, H: Generator, J: Generator, K: Generator, L: Generator>(gs: (A, B, C, D, E, F, G, H, J, K, L))
    requires
        deterministic(gs.0),
        deterministic(gs.1),
        deterministic(gs.2),
        deterministic(gs.3),
        deterministic(gs.4),
        deterministic(gs.5),
        deterministic(gs.6),
        deterministic(gs.7),
        deterministic(gs.8),
        deterministic(gs.9),
        deterministic(gs.10),
    ensures
        deterministic(gs),
{
    law_tuples_10_deterministic((gs.1, gs.2, gs.3, gs.4, gs.5, gs.6, gs.7, gs.8, gs.9, gs.10));
    assert forall|d1: Seq<u8>, d2: Seq<u8>, r1: Maybe<(A::Item, B::Item, C::Item, D::Item, E::Item, F::Item, G::Item, H::Item, J::Item, K::Item, L::Item)>, r2: Maybe<(A::Item, B::Item, C::Item, D::Item, E::Item, F::Item, G::Item, H::Item, J::Item, K::Item, L::Item)>|
        gs.generates(d1, r1) && gs.generates(d2, r2) && d1.is_prefix_of(d2) implies d1 == d2 && r1
        == r2 by {
        let (k1, h1) = tuple_11_head(gs, d1, r1);
        let (k2, h2) = tuple_11_head(gs, d2, r2);
        assert(0 <= k1 <= d1.len() && gs.0.generates(d1.take(k1), h1));
        assert(0 <= k2 <= d2.len() && gs.0.generates(d2.take(k2), h2));
        assert(d1.take(k1).is_prefix_of(d2));
        lemma_prefixes_comparable(d1.take(k1), d2.take(k2), d2);
        assert(d1.take(k1) == d2.take(k2) && h1 == h2);
        assert(k1 == k2);
        if h1 is Ok {
            assert(d1.skip(k1).is_prefix_of(d2.skip(k2)));
            assert(d1 =~= d1.take(k1) + d1.skip(k1));
            assert(d2 =~= d2.take(k2) + d2.skip(k2));
        } else {
            assert(d1.take(k1) =~= d1);
            assert(d2.take(k2) =~= d2);
        }
    }
}

/// Where the first generator of a tuple of 12 stopped drawing, and what it
/// made.
spec fn tuple_12_head<A: Generator, B: Generator, C: Generator, D: Generator, E: Generator, F: Generator, G: Generator, H: Generator, J: Generator, K: Generator, L: Generator, M: Generator>(
    gs: (A, B, C, D, E, F, G, H, J, K, L, M),
    d: Seq<u8>,
    r: Maybe<(A::Item, B::Item, C::Item, D::Item, E::Item, F::Item, G::Item, H::Item, J::Item, K::Item, L::Item, M::Item)>,
) -> (int, Maybe<A::Item>) {
    match r {
        Ok((a, b, c, f, g, h, j, l, m, n, o, q)) => {
            let (k, x) = choose|k: int, x: A::Item|
                0 <= k <= d.len() && #[trigger] gs.0.generates(d.take(k), Ok(x)) && x == a
                    && (gs.1, gs.2, gs.3, gs.4, gs.5, gs.6, gs.7, gs.8, gs.9, gs.10, gs.11).generates(d.skip(k), Ok((b, c, f, g, h, j, l, m, n, o, q)));
            (k, Ok(x))
        },
        Err(e) => if gs.0.generates(d, Err(e)) {
            (d.len() as int, Err(e))
        } else {
            let (k, x) = choose|k: int, x: A::Item|
                0 <= k <= d.len() && #[trigger] gs.0.generates(d.take(k), Ok(x))
                    && (gs.1, gs.2, gs.3, gs.4, gs.5, gs.6, gs.7, gs.8, gs.9, gs.10, gs.11).generates(d.skip(k), Err(e));
            (k, Ok(x))
        },
    }
}

/// A tuple of 12 generators that are the same for the same bytes is so too.
#[verifier::spinoff_prover]
#[verifier::rlimit(100)]
pub proof fn law_tuples_12_deterministic<A: Generator, B: Generator, C: Generator, D: Generator, E: Generator, F: Generator, G: Generator, H: Generator, J: Generator, K: Generator, L: Generator, M: Generator>(gs: (A, B, C, D, E, F, G, H, J, K, L, M))
    requires
        deterministic(gs.0),
        deterministic(gs.1),
        deterministic(gs.2),
        deterministic(gs.3),
        deterministic(gs.4),
        deterministic(gs.5),
        deterministic(gs.6),
        deterministic(gs.7),
        deterministic(gs.8),
        deterministic(gs.9),
        deterministic(gs.10),
        deterministic(gs.11),
    ensures
        deterministic(gs),
{
    law_tuples_11_deterministic((gs.1, gs.2, gs.3, gs.4, gs.5, gs.6, gs.7, gs.8, gs.9, gs.10, gs.11));
    assert forall|d1: Seq<u8>, d2: Seq<u8>, r1: Maybe<(A::Item, B::Item, C::Item, D::Item, E::Item, F::Item, G::Item, H::Item, J::Item, K::Item, L::Item, M::Item)>, r2: Maybe<(A::Item, B::Item, C::Item, D::Item, E::Item, F::Item, G::Item, H::Item, J::Item, K::Item, L::Item, M::Item)>|
        gs.generates(d1, r1) && gs.generates(d2, r2) && d1.is_prefix_of(d2) implies d1 == d2 && r1
        == r2 by {
        let (k1, h1) = tuple_12_head(gs, d1, r1);
        let (k2, h2) = tuple_12_head(gs, d2, r2);
        assert(0 <= k1 <= d1.len() && gs.0.generates(d1.take(k1), h1));
        assert(0 <= k2 <= d2.len() && gs.0.generates(d2.take(k2), h2));
        assert(d1.take(k1).is_prefix_of(d2));
        lemma_prefixes_comparable(d1.take(k1), d2.take(k2), d2);
        assert(d1.take(k1) == d2.take(k2) && h1 == h2);
        assert(k1 == k2);
        if h1 is Ok {
            assert(d1.skip(k1).is_prefix_of(d2.skip(k2)));
            assert(d1 =~= d1.take(k1) + d1.skip(k1));
            assert(d2 =~= d2.take(k2) + d2.skip(k2));
        } else {
            assert(d1.take(k1) =~= d1);
            assert(d2.take(k2) =~= d2);
        }
    }
}

} // verus!
