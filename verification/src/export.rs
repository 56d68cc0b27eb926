//! Rendering: the Start/End handler contracts consumed by the event
//! traversal, and two default handlers.  Handlers produce bytes;
//! callers write them wherever they like.
//!
//! Each handler implementation fixes, as a spec function per event
//! side, the bytes it emits or the error it signals for an element;
//! its exec methods are bound to that.  The driving loops then promise
//! their exact outcome: the concatenation of every chunk in event
//! order, or the first error, unchanged.
use vstd::prelude::*;

use crate::element::{copy_bytes, Element, ElementV};
use crate::org::{spec_events, Event, EventV, Org};

verus! {

/// A rendering failure signalled by a handler.
#[derive(Clone, Copy, Debug, PartialEq)]
pub struct RenderError {}

/// The HTML rendering contract: bytes to emit when a node is entered
/// and when it is left, or an error that aborts the render.  What a
/// handler produces is a function of the element alone, declared by
/// `start_spec` and `end_spec`.
pub trait HtmlHandler<E> {
    /// The bytes emitted, or the error signalled, on entering
    /// `element`.  The default leaves it unspecified; a handler meant
    /// to be reasoned about overrides it, as the verified handlers
    /// here do.
    open spec fn start_spec(element: ElementV) -> Result<Seq<u8>, E> {
        arbitrary()
    }

    /// The bytes emitted, or the error signalled, on leaving `element`.
    open spec fn end_spec(element: ElementV) -> Result<Seq<u8>, E> {
        arbitrary()
    }

    fn start(&mut self, element: &Element) -> (r: Result<Vec<u8>, E>)
        ensures
            match r {
                Ok(b) => Self::start_spec(element@) matches Ok(s) && b@ == s,
                Err(e) => Self::start_spec(element@) matches Err(e2) && e == e2,
            },
    ;

    fn end(&mut self, element: &Element) -> (r: Result<Vec<u8>, E>)
        ensures
            match r {
                Ok(b) => Self::end_spec(element@) matches Ok(s) && b@ == s,
                Err(e) => Self::end_spec(element@) matches Err(e2) && e == e2,
            },
    ;
}

/// The round-trip markup rendering contract, shaped like `HtmlHandler`.
pub trait OrgHandler<E> {
    /// The bytes emitted, or the error signalled, on entering
    /// `element`.  The default leaves it unspecified; a handler meant
    /// to be reasoned about overrides it, as the verified handlers
    /// here do.
    open spec fn start_spec(element: ElementV) -> Result<Seq<u8>, E> {
        arbitrary()
    }

    /// The bytes emitted, or the error signalled, on leaving `element`.
    open spec fn end_spec(element: ElementV) -> Result<Seq<u8>, E> {
        arbitrary()
    }

    fn start(&mut self, element: &Element) -> (r: Result<Vec<u8>, E>)
        ensures
            match r {
                Ok(b) => Self::start_spec(element@) matches Ok(s) && b@ == s,
                Err(e) => Self::start_spec(element@) matches Err(e2) && e == e2,
            },
    ;

    fn end(&mut self, element: &Element) -> (r: Result<Vec<u8>, E>)
        ensures
            match r {
                Ok(b) => Self::end_spec(element@) matches Ok(s) && b@ == s,
                Err(e) => Self::end_spec(element@) matches Err(e2) && e == e2,
            },
    ;
}

/// The outcome of feeding `events` in order to an `HtmlHandler`: the
/// concatenation of every emitted chunk, or the first error, with
/// nothing taken from any later event.
pub open spec fn spec_render<E, H: HtmlHandler<E>>(events: Seq<EventV>) -> Result<Seq<u8>, E>
    decreases events.len(),
{
    if events.len() == 0 {
        Ok(Seq::empty())
    } else {
        let head = match events[0] {
            EventV::Start(e) => H::start_spec(e),
            EventV::End(e) => H::end_spec(e),
        };
        match head {
            Ok(b) => match spec_render::<E, H>(events.drop_first()) {
                Ok(rest) => Ok(b + rest),
                Err(e) => Err(e),
            },
            Err(e) => Err(e),
        }
    }
}

/// The outcome of feeding `events` in order to an `OrgHandler`, as
/// `spec_render` describes it for an `HtmlHandler`.
pub open spec fn spec_render_org<E, H: OrgHandler<E>>(events: Seq<EventV>) -> Result<Seq<u8>, E>
    decreases events.len(),
{
    if events.len() == 0 {
        Ok(Seq::empty())
    } else {
        let head = match events[0] {
            EventV::Start(e) => H::start_spec(e),
            EventV::End(e) => H::end_spec(e),
        };
        match head {
            Ok(b) => match spec_render_org::<E, H>(events.drop_first()) {
                Ok(rest) => Ok(b + rest),
                Err(e) => Err(e),
            },
            Err(e) => Err(e),
        }
    }
}

/// Append `add` to `acc`.
pub fn push_bytes(acc: &mut Vec<u8>, add: &[u8])
    ensures
        final(acc)@ == old(acc)@ + add@,
{
    let mut i: usize = 0;
    while i < add.len()
        invariant
            i <= add@.len(),
            acc@ == old(acc)@ + add@.subrange(0, i as int),
        decreases add@.len() - i,
    {
        acc.push(add[i]);
        proof {
            assert(acc@ =~= old(acc)@ + add@.subrange(0, i + 1));
        }
        i = i + 1;
    }
    proof {
        assert(add@.subrange(0, add@.len() as int) =~= add@);
    }
}

/// The bytes of `<main>`.
pub open spec fn tag_main_open() -> Seq<u8> {
    seq![60u8, 109u8, 97u8, 105u8, 110u8, 62u8]
}

/// The bytes of `</main>`.
pub open spec fn tag_main_close() -> Seq<u8> {
    seq![60u8, 47u8, 109u8, 97u8, 105u8, 110u8, 62u8]
}

/// The bytes of `<span class="clock">`.
pub open spec fn tag_clock_open() -> Seq<u8> {
    seq![
        60u8, 115u8, 112u8, 97u8, 110u8, 32u8, 99u8, 108u8, 97u8, 115u8, 115u8, 61u8, 34u8, 99u8,
        108u8, 111u8, 99u8, 107u8, 34u8, 62u8,
    ]
}

/// The bytes of `<span class="macro">`.
pub open spec fn tag_macro_open() -> Seq<u8> {
    seq![
        60u8, 115u8, 112u8, 97u8, 110u8, 32u8, 99u8, 108u8, 97u8, 115u8, 115u8, 61u8, 34u8, 109u8,
        97u8, 99u8, 114u8, 111u8, 34u8, 62u8,
    ]
}

/// The bytes of `</span>`.
pub open spec fn tag_span_close() -> Seq<u8> {
    seq![60u8, 47u8, 115u8, 112u8, 97u8, 110u8, 62u8]
}

/// What the default HTML renderer emits on entering an element: a fixed
/// opening tag per kind, the raw bytes of a text fallback node.
pub open spec fn default_html_start(element: ElementV) -> Seq<u8> {
    match element {
        ElementV::Document { .. } => tag_main_open(),
        ElementV::Clock(_) => tag_clock_open(),
        ElementV::Macros(_) => tag_macro_open(),
        ElementV::Text { value } => value,
    }
}

/// What the default HTML renderer emits on leaving an element.
pub open spec fn default_html_end(element: ElementV) -> Seq<u8> {
    match element {
        ElementV::Document { .. } => tag_main_close(),
        ElementV::Clock(_) => tag_span_close(),
        ElementV::Macros(_) => tag_span_close(),
        ElementV::Text { .. } => Seq::empty(),
    }
}

/// What the default round-trip renderer emits on entering an element:
/// the raw bytes of a text node, nothing for the structural kinds.
pub open spec fn default_org_start(element: ElementV) -> Seq<u8> {
    match element {
        ElementV::Text { value } => value,
        _ => Seq::empty(),
    }
}

/// The default HTML rendering of an event sequence: every event's
/// default chunk, concatenated in order.
pub open spec fn default_html_render(events: Seq<EventV>) -> Seq<u8>
    decreases events.len(),
{
    if events.len() == 0 {
        Seq::empty()
    } else {
        (match events[0] {
            EventV::Start(e) => default_html_start(e),
            EventV::End(e) => default_html_end(e),
        }) + default_html_render(events.drop_first())
    }
}

/// The default round-trip rendering of an event sequence.
pub open spec fn default_org_render(events: Seq<EventV>) -> Seq<u8>
    decreases events.len(),
{
    if events.len() == 0 {
        Seq::empty()
    } else {
        (match events[0] {
            EventV::Start(e) => default_org_start(e),
            EventV::End(_) => Seq::empty(),
        }) + default_org_render(events.drop_first())
    }
}

/// The default HTML renderer.  It never fails.
pub struct DefaultHtmlHandler {}

impl DefaultHtmlHandler {
    pub fn start_bytes(element: &Element) -> (r: Vec<u8>)
        ensures
            r@ == default_html_start(element@),
    {
        match element {
            Element::Document { .. } => {
                // "<main>"
                let v: Vec<u8> = vec![60u8, 109u8, 97u8, 105u8, 110u8, 62u8];
                proof {
                    assert(v@ =~= tag_main_open());
                }
                v
            },
            Element::Clock(_) => {
                // "<span class=\"clock\">"
                let v: Vec<u8> = vec![
                    60u8, 115u8, 112u8, 97u8, 110u8, 32u8, 99u8, 108u8, 97u8, 115u8, 115u8, 61u8,
                    34u8, 99u8, 108u8, 111u8, 99u8, 107u8, 34u8, 62u8,
                ];
                proof {
                    assert(v@ =~= tag_clock_open());
                }
                v
            },
            Element::Macros(_) => {
                // "<span class=\"macro\">"
                let v: Vec<u8> = vec![
                    60u8, 115u8, 112u8, 97u8, 110u8, 32u8, 99u8, 108u8, 97u8, 115u8, 115u8, 61u8,
                    34u8, 109u8, 97u8, 99u8, 114u8, 111u8, 34u8, 62u8,
                ];
                proof {
                    assert(v@ =~= tag_macro_open());
                }
                v
            },
            Element::Text { value } => copy_bytes(value),
        }
    }

    pub fn end_bytes(element: &Element) -> (r: Vec<u8>)
        ensures
            r@ == default_html_end(element@),
    {
        match element {
            Element::Document { .. } => {
                // "</main>"
                let v: Vec<u8> = vec![60u8, 47u8, 109u8, 97u8, 105u8, 110u8, 62u8];
                proof {
                    assert(v@ =~= tag_main_close());
                }
                v
            },
            Element::Clock(_) | Element::Macros(_) => {
                // "</span>"
                let v: Vec<u8> = vec![60u8, 47u8, 115u8, 112u8, 97u8, 110u8, 62u8];
                proof {
                    assert(v@ =~= tag_span_close());
                }
                v
            },
            Element::Text { .. } => {
                let v: Vec<u8> = Vec::new();
                proof {
                    assert(v@ =~= Seq::<u8>::empty());
                }
                v
            },
        }
    }
}

impl HtmlHandler<RenderError> for DefaultHtmlHandler {
    open spec fn start_spec(element: ElementV) -> Result<Seq<u8>, RenderError> {
        Ok(default_html_start(element))
    }

    open spec fn end_spec(element: ElementV) -> Result<Seq<u8>, RenderError> {
        Ok(default_html_end(element))
    }

    fn start(&mut self, element: &Element) -> Result<Vec<u8>, RenderError> {
        Ok(DefaultHtmlHandler::start_bytes(element))
    }

    fn end(&mut self, element: &Element) -> Result<Vec<u8>, RenderError> {
        Ok(DefaultHtmlHandler::end_bytes(element))
    }
}

/// The default round-trip renderer.  It never fails.
pub struct DefaultOrgHandler {}

impl DefaultOrgHandler {
    pub fn start_bytes(element: &Element) -> (r: Vec<u8>)
        ensures
            r@ == default_org_start(element@),
    {
        match element {
            Element::Text { value } => copy_bytes(value),
            _ => {
                let v: Vec<u8> = Vec::new();
                proof {
                    assert(v@ =~= Seq::<u8>::empty());
                }
                v
            },
        }
    }
}

impl OrgHandler<RenderError> for DefaultOrgHandler {
    open spec fn start_spec(element: ElementV) -> Result<Seq<u8>, RenderError> {
        Ok(default_org_start(element))
    }

    open spec fn end_spec(element: ElementV) -> Result<Seq<u8>, RenderError> {
        Ok(Seq::empty())
    }

    fn start(&mut self, element: &Element) -> Result<Vec<u8>, RenderError> {
        Ok(DefaultOrgHandler::start_bytes(element))
    }

    fn end(&mut self, element: &Element) -> (r: Result<Vec<u8>, RenderError>) {
        let v: Vec<u8> = Vec::new();
        proof {
            assert(v@ =~= Seq::<u8>::empty());
        }
        Ok(v)
    }
}

/// Rendering through the default HTML handler never fails and yields
/// the default rendering.
pub proof fn lemma_default_html_render(events: Seq<EventV>)
    ensures
        spec_render::<RenderError, DefaultHtmlHandler>(events) == Ok::<Seq<u8>, RenderError>(
            default_html_render(events),
        ),
    decreases events.len(),
{
    if events.len() > 0 {
        lemma_default_html_render(events.drop_first());
    }
}

/// Rendering through the default round-trip handler never fails and
/// yields the default rendering.
pub proof fn lemma_default_org_render(events: Seq<EventV>)
    ensures
        spec_render_org::<RenderError, DefaultOrgHandler>(events) == Ok::<Seq<u8>, RenderError>(
            default_org_render(events),
        ),
    decreases events.len(),
{
    if events.len() > 0 {
        lemma_default_org_render(events.drop_first());
    }
}

impl Org {
    /// Feed every traversal event to `handler` in order: the result is
    /// the concatenation of every chunk the handler emitted, or the
    /// first error it signalled, unchanged, with nothing taken from any
    /// later event.  The tree itself is untouched.
    pub fn html_with_handler<E, H: HtmlHandler<E>>(&self, handler: &mut H) -> (r: Result<
        Vec<u8>,
        E,
    >)
        requires
            self.inv(),
        ensures
            match r {
                Ok(b) => spec_render::<E, H>(spec_events(self@)) matches Ok(s) && b@ == s,
                Err(e) => spec_render::<E, H>(spec_events(self@)) matches Err(e2) && e == e2,
            },
    {
        let events = self.iter();
        let ghost sev = spec_events(self@);
        let mut out: Vec<u8> = Vec::new();
        let mut k: usize = 0;
        proof {
            assert(sev.skip(0) =~= sev);
            match spec_render::<E, H>(sev) {
                Ok(rest) => {
                    assert(out@ + rest =~= rest);
                },
                Err(_) => {},
            }
        }
        while k < events.len()
            invariant
                sev == spec_events(self@),
                events@.len() == sev.len(),
                forall|j: int| 0 <= j < sev.len() ==> (#[trigger] events@[j])@ == sev[j],
                k <= sev.len(),
                spec_render::<E, H>(sev) == (match spec_render::<E, H>(sev.skip(k as int)) {
                    Ok(rest) => Ok::<Seq<u8>, E>(out@ + rest),
                    Err(e) => Err::<Seq<u8>, E>(e),
                }),
            decreases sev.len() - k,
        {
            let chunk = match &events[k] {
                Event::Start(element) => handler.start(element),
                Event::End(element) => handler.end(element),
            };
            proof {
                assert(sev.skip(k as int)[0] == sev[k as int]);
                assert(sev.skip(k as int).drop_first() =~= sev.skip(k as int + 1));
            }
            match chunk {
                Ok(b) => {
                    let ghost before = out@;
                    push_bytes(&mut out, b.as_slice());
                    proof {
                        match spec_render::<E, H>(sev.skip(k as int + 1)) {
                            Ok(rest) => {
                                assert(before + (b@ + rest) =~= out@ + rest);
                            },
                            Err(_) => {},
                        }
                    }
                    k = k + 1;
                },
                Err(e) => {
                    return Err(e);
                },
            }
        }
        proof {
            assert(sev.skip(sev.len() as int) =~= Seq::<EventV>::empty());
            assert(out@ + Seq::<u8>::empty() =~= out@);
        }
        Ok(out)
    }

    /// Render with the default HTML handler: the default rendering of
    /// the document's events, which never fails.
    pub fn html(&self) -> (r: Vec<u8>)
        requires
            self.inv(),
        ensures
            r@ == default_html_render(spec_events(self@)),
    {
        let events = self.iter();
        let ghost sev = spec_events(self@);
        let mut out: Vec<u8> = Vec::new();
        let mut k: usize = 0;
        proof {
            assert(sev.skip(0) =~= sev);
            assert(out@ + default_html_render(sev) =~= default_html_render(sev));
        }
        while k < events.len()
            invariant
                sev == spec_events(self@),
                events@.len() == sev.len(),
                forall|j: int| 0 <= j < sev.len() ==> (#[trigger] events@[j])@ == sev[j],
                k <= sev.len(),
                default_html_render(sev) == out@ + default_html_render(sev.skip(k as int)),
            decreases sev.len() - k,
        {
            let chunk = match &events[k] {
                Event::Start(element) => DefaultHtmlHandler::start_bytes(element),
                Event::End(element) => DefaultHtmlHandler::end_bytes(element),
            };
            proof {
                assert(sev.skip(k as int)[0] == sev[k as int]);
                assert(sev.skip(k as int).drop_first() =~= sev.skip(k as int + 1));
            }
            let ghost before = out@;
            push_bytes(&mut out, chunk.as_slice());
            proof {
                assert(before + (chunk@ + default_html_render(sev.skip(k as int + 1))) =~= out@
                    + default_html_render(sev.skip(k as int + 1)));
            }
            k = k + 1;
        }
        proof {
            assert(sev.skip(sev.len() as int) =~= Seq::<EventV>::empty());
            assert(out@ + Seq::<u8>::empty() =~= out@);
        }
        out
    }

    /// Feed every traversal event to an `OrgHandler`, with the same
    /// exact outcome `html_with_handler` promises for an `HtmlHandler`.
    pub fn org_with_handler<E, H: OrgHandler<E>>(&self, handler: &mut H) -> (r: Result<Vec<u8>, E>)
        requires
            self.inv(),
        ensures
            match r {
                Ok(b) => spec_render_org::<E, H>(spec_events(self@)) matches Ok(s) && b@ == s,
                Err(e) => spec_render_org::<E, H>(spec_events(self@)) matches Err(e2) && e == e2,
            },
    {
        let events = self.iter();
        let ghost sev = spec_events(self@);
        let mut out: Vec<u8> = Vec::new();
        let mut k: usize = 0;
        proof {
            assert(sev.skip(0) =~= sev);
            match spec_render_org::<E, H>(sev) {
                Ok(rest) => {
                    assert(out@ + rest =~= rest);
                },
                Err(_) => {},
            }
        }
        while k < events.len()
            invariant
                sev == spec_events(self@),
                events@.len() == sev.len(),
                forall|j: int| 0 <= j < sev.len() ==> (#[trigger] events@[j])@ == sev[j],
                k <= sev.len(),
                spec_render_org::<E, H>(sev) == (match spec_render_org::<E, H>(
                    sev.skip(k as int),
                ) {
                    Ok(rest) => Ok::<Seq<u8>, E>(out@ + rest),
                    Err(e) => Err::<Seq<u8>, E>(e),
                }),
            decreases sev.len() - k,
        {
            let chunk = match &events[k] {
                Event::Start(element) => handler.start(element),
                Event::End(element) => handler.end(element),
            };
            proof {
                assert(sev.skip(k as int)[0] == sev[k as int]);
                assert(sev.skip(k as int).drop_first() =~= sev.skip(k as int + 1));
            }
            match chunk {
                Ok(b) => {
                    let ghost before = out@;
                    push_bytes(&mut out, b.as_slice());
                    proof {
                        match spec_render_org::<E, H>(sev.skip(k as int + 1)) {
                            Ok(rest) => {
                                assert(before + (b@ + rest) =~= out@ + rest);
                            },
                            Err(_) => {},
                        }
                    }
                    k = k + 1;
                },
                Err(e) => {
                    return Err(e);
                },
            }
        }
        proof {
            assert(sev.skip(sev.len() as int) =~= Seq::<EventV>::empty());
            assert(out@ + Seq::<u8>::empty() =~= out@);
        }
        Ok(out)
    }

    /// Render with the default round-trip handler: the default
    /// rendering of the document's events, which never fails.
    pub fn org(&self) -> (r: Vec<u8>)
        requires
            self.inv(),
        ensures
            r@ == default_org_render(spec_events(self@)),
    {
        let events = self.iter();
        let ghost sev = spec_events(self@);
        let mut out: Vec<u8> = Vec::new();
        let mut k: usize = 0;
        proof {
            assert(sev.skip(0) =~= sev);
            assert(out@ + default_org_render(sev) =~= default_org_render(sev));
        }
        while k < events.len()
            invariant
                sev == spec_events(self@),
                events@.len() == sev.len(),
                forall|j: int| 0 <= j < sev.len() ==> (#[trigger] events@[j])@ == sev[j],
                k <= sev.len(),
                default_org_render(sev) == out@ + default_org_render(sev.skip(k as int)),
            decreases sev.len() - k,
        {
            let chunk = match &events[k] {
                Event::Start(element) => DefaultOrgHandler::start_bytes(element),
                Event::End(_) => Vec::new(),
            };
            proof {
                assert(sev.skip(k as int)[0] == sev[k as int]);
                assert(sev.skip(k as int).drop_first() =~= sev.skip(k as int + 1));
            }
            let ghost before = out@;
            push_bytes(&mut out, chunk.as_slice());
            proof {
                assert(before + (chunk@ + default_org_render(sev.skip(k as int + 1))) =~= out@
                    + default_org_render(sev.skip(k as int + 1)));
            }
            k = k + 1;
        }
        proof {
            assert(sev.skip(sev.len() as int) =~= Seq::<EventV>::empty());
            assert(out@ + Seq::<u8>::empty() =~= out@);
        }
        out
    }
}

} // verus!
