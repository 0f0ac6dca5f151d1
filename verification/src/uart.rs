use vstd::prelude::*;
use crate::ring::RingBuffer;

verus! {

/// The four UART lines the driver serves.
#[derive(Clone, Copy)]
pub enum UART_ID {
    UART_ID_1,
    UART_ID_2,
    UART_ID_3,
    UART_ID_4,
}

/// Receive-ring capacity of each line, in slots.
pub open spec fn rx_capacity(id: UART_ID) -> int {
    match id {
        UART_ID::UART_ID_1 => 32,
        UART_ID::UART_ID_2 => 4096,
        UART_ID::UART_ID_3 => 32,
        UART_ID::UART_ID_4 => 32,
    }
}

/// Transmit-ring capacity of each line, in slots.
pub open spec fn tx_capacity(id: UART_ID) -> int {
    match id {
        UART_ID::UART_ID_1 => 32,
        UART_ID::UART_ID_2 => 32768,
        UART_ID::UART_ID_3 => 32,
        UART_ID::UART_ID_4 => 32,
    }
}

/// One receive and one transmit ring per UART line. The caller owns the
/// set and serializes access to it, as the interrupt-masking discipline of
/// the surrounding kernel would.
pub struct UartRings {
    rx1: RingBuffer,
    tx1: RingBuffer,
    rx2: RingBuffer,
    tx2: RingBuffer,
    rx3: RingBuffer,
    tx3: RingBuffer,
    rx4: RingBuffer,
    tx4: RingBuffer,
}

impl UartRings {
    /// The receive ring of line `id`.
    pub closed spec fn rx(self, id: UART_ID) -> RingBuffer {
        match id {
            UART_ID::UART_ID_1 => self.rx1,
            UART_ID::UART_ID_2 => self.rx2,
            UART_ID::UART_ID_3 => self.rx3,
            UART_ID::UART_ID_4 => self.rx4,
        }
    }

    /// The transmit ring of line `id`.
    pub closed spec fn tx(self, id: UART_ID) -> RingBuffer {
        match id {
            UART_ID::UART_ID_1 => self.tx1,
            UART_ID::UART_ID_2 => self.tx2,
            UART_ID::UART_ID_3 => self.tx3,
            UART_ID::UART_ID_4 => self.tx4,
        }
    }

    pub closed spec fn wf(self) -> bool {
        &&& self.rx1.wf() && self.tx1.wf()
        &&& self.rx2.wf() && self.tx2.wf()
        &&& self.rx3.wf() && self.tx3.wf()
        &&& self.rx4.wf() && self.tx4.wf()
    }

    /// Fresh, empty rings for all four lines, never overwriting on full.
    pub fn new() -> (r: UartRings)
        ensures
            r.wf(),
            forall|id: UART_ID|
                #![trigger r.rx(id)]
                r.rx(id).contents().len() == 0 && r.rx(id).capacity() == rx_capacity(id)
                    && !r.rx(id).overwrite_on_full(),
            forall|id: UART_ID|
                #![trigger r.tx(id)]
                r.tx(id).contents().len() == 0 && r.tx(id).capacity() == tx_capacity(id)
                    && !r.tx(id).overwrite_on_full(),
    {
        proof {
            vstd::arithmetic::power2::lemma2_to64();
        }
        let r = UartRings {
            rx1: RingBuffer::new(5, false),
            tx1: RingBuffer::new(5, false),
            rx2: RingBuffer::new(12, false),
            tx2: RingBuffer::new(15, false),
            rx3: RingBuffer::new(5, false),
            tx3: RingBuffer::new(5, false),
            rx4: RingBuffer::new(5, false),
            tx4: RingBuffer::new(5, false),
        };
        proof {
            assert forall|id: UART_ID| r.rx(id).capacity() == rx_capacity(id) by {
                match id {
                    UART_ID::UART_ID_1 => {},
                    UART_ID::UART_ID_2 => {},
                    UART_ID::UART_ID_3 => {},
                    UART_ID::UART_ID_4 => {},
                }
            }
            assert forall|id: UART_ID| r.tx(id).capacity() == tx_capacity(id) by {
                match id {
                    UART_ID::UART_ID_1 => {},
                    UART_ID::UART_ID_2 => {},
                    UART_ID::UART_ID_3 => {},
                    UART_ID::UART_ID_4 => {},
                }
            }
        }
        r
    }
}

/// Stores one received byte on the receive ring of line `id`; reports
/// failure when that ring is full.
pub fn UART_rxbuf_push(rings: &mut UartRings, id: UART_ID, v: u8) -> (r: bool)
    requires
        old(rings).wf(),
    ensures
        final(rings).wf(),
        ({
            let o = old(rings).rx(id);
            let n = final(rings).rx(id);
            &&& n.capacity() == o.capacity()
            &&& n.overwrite_on_full() == o.overwrite_on_full()
            &&& o.contents().len() < o.capacity() - 1 ==> r && n.contents()
                == o.contents().push(v)
            &&& o.contents().len() == o.capacity() - 1 && !o.overwrite_on_full() ==> !r && n == o
            &&& o.contents().len() == o.capacity() - 1 && o.overwrite_on_full() ==> r
                && n.contents() == o.contents().drop_first().push(v)
        }),
        forall|id2: UART_ID| #![trigger final(rings).tx(id2)]
            final(rings).tx(id2) == old(rings).tx(id2),
        forall|id2: UART_ID| #![trigger final(rings).rx(id2)]
            id2 != id ==> final(rings).rx(id2) == old(rings).rx(id2),
{
    match id {
        UART_ID::UART_ID_1 => rings.rx1.push(v),
        UART_ID::UART_ID_2 => rings.rx2.push(v),
        UART_ID::UART_ID_3 => rings.rx3.push(v),
        UART_ID::UART_ID_4 => rings.rx4.push(v),
    }
}

/// Stores one byte to transmit on the transmit ring of line `id`; reports
/// failure when that ring is full.
pub fn UART_txbuf_push(rings: &mut UartRings, id: UART_ID, v: u8) -> (r: bool)
    requires
        old(rings).wf(),
    ensures
        final(rings).wf(),
        ({
            let o = old(rings).tx(id);
            let n = final(rings).tx(id);
            &&& n.capacity() == o.capacity()
            &&& n.overwrite_on_full() == o.overwrite_on_full()
            &&& o.contents().len() < o.capacity() - 1 ==> r && n.contents()
                == o.contents().push(v)
            &&& o.contents().len() == o.capacity() - 1 && !o.overwrite_on_full() ==> !r && n == o
            &&& o.contents().len() == o.capacity() - 1 && o.overwrite_on_full() ==> r
                && n.contents() == o.contents().drop_first().push(v)
        }),
        forall|id2: UART_ID| #![trigger final(rings).rx(id2)]
            final(rings).rx(id2) == old(rings).rx(id2),
        forall|id2: UART_ID| #![trigger final(rings).tx(id2)]
            id2 != id ==> final(rings).tx(id2) == old(rings).tx(id2),
{
    match id {
        UART_ID::UART_ID_1 => rings.tx1.push(v),
        UART_ID::UART_ID_2 => rings.tx2.push(v),
        UART_ID::UART_ID_3 => rings.tx3.push(v),
        UART_ID::UART_ID_4 => rings.tx4.push(v),
    }
}

/// Takes the oldest received byte off the receive ring of line `id`.
pub fn UART_rs_rx_pop(rings: &mut UartRings, id: UART_ID) -> (r: Option<u8>)
    requires
        old(rings).wf(),
    ensures
        final(rings).wf(),
        ({
            let o = old(rings).rx(id);
            let n = final(rings).rx(id);
            &&& n.capacity() == o.capacity()
            &&& n.overwrite_on_full() == o.overwrite_on_full()
            &&& o.contents().len() == 0 ==> r is None && n == o
            &&& o.contents().len() > 0 ==> r == Some(o.contents()[0]) && n.contents()
                == o.contents().drop_first()
        }),
        forall|id2: UART_ID| #![trigger final(rings).tx(id2)]
            final(rings).tx(id2) == old(rings).tx(id2),
        forall|id2: UART_ID| #![trigger final(rings).rx(id2)]
            id2 != id ==> final(rings).rx(id2) == old(rings).rx(id2),
{
    match id {
        UART_ID::UART_ID_1 => rings.rx1.pop(),
        UART_ID::UART_ID_2 => rings.rx2.pop(),
        UART_ID::UART_ID_3 => rings.rx3.pop(),
        UART_ID::UART_ID_4 => rings.rx4.pop(),
    }
}

/// Takes the oldest byte awaiting transmission off the transmit ring of
/// line `id`.
pub fn UART_rs_tx_pop(rings: &mut UartRings, id: UART_ID) -> (r: Option<u8>)
    requires
        old(rings).wf(),
    ensures
        final(rings).wf(),
        ({
            let o = old(rings).tx(id);
            let n = final(rings).tx(id);
            &&& n.capacity() == o.capacity()
            &&& n.overwrite_on_full() == o.overwrite_on_full()
            &&& o.contents().len() == 0 ==> r is None && n == o
            &&& o.contents().len() > 0 ==> r == Some(o.contents()[0]) && n.contents()
                == o.contents().drop_first()
        }),
        forall|id2: UART_ID| #![trigger final(rings).rx(id2)]
            final(rings).rx(id2) == old(rings).rx(id2),
        forall|id2: UART_ID| #![trigger final(rings).tx(id2)]
            id2 != id ==> final(rings).tx(id2) == old(rings).tx(id2),
{
    match id {
        UART_ID::UART_ID_1 => rings.tx1.pop(),
        UART_ID::UART_ID_2 => rings.tx2.pop(),
        UART_ID::UART_ID_3 => rings.tx3.pop(),
        UART_ID::UART_ID_4 => rings.tx4.pop(),
    }
}

} // verus!
