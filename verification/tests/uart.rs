use buddy_alloc::uart::{UartRings, UART_ID, UART_rxbuf_push, UART_txbuf_push, UART_rs_rx_pop,
    UART_rs_tx_pop};

/// Bytes pushed on one line's receive ring come back off that line only.
#[test]
fn rx_rings_are_per_line() {
    let mut rings = UartRings::new();
    assert_eq!(UART_rs_rx_pop(&mut rings, UART_ID::UART_ID_1), None);

    assert!(UART_rxbuf_push(&mut rings, UART_ID::UART_ID_1, 7));
    assert!(UART_rxbuf_push(&mut rings, UART_ID::UART_ID_2, 9));

    assert_eq!(UART_rs_rx_pop(&mut rings, UART_ID::UART_ID_1), Some(7));
    assert_eq!(UART_rs_rx_pop(&mut rings, UART_ID::UART_ID_1), None);
    assert_eq!(UART_rs_rx_pop(&mut rings, UART_ID::UART_ID_2), Some(9));
    assert_eq!(UART_rs_rx_pop(&mut rings, UART_ID::UART_ID_3), None);
}

/// Transmit rings hand bytes back in order and independently of receive.
#[test]
fn tx_rings_fifo_and_independent() {
    let mut rings = UartRings::new();
    assert!(UART_txbuf_push(&mut rings, UART_ID::UART_ID_4, 1));
    assert!(UART_txbuf_push(&mut rings, UART_ID::UART_ID_4, 2));
    assert_eq!(UART_rs_rx_pop(&mut rings, UART_ID::UART_ID_4), None);
    assert_eq!(UART_rs_tx_pop(&mut rings, UART_ID::UART_ID_4), Some(1));
    assert_eq!(UART_rs_tx_pop(&mut rings, UART_ID::UART_ID_4), Some(2));
    assert_eq!(UART_rs_tx_pop(&mut rings, UART_ID::UART_ID_4), None);
}

/// A line's 32-slot ring holds 31 bytes and then refuses more: these
/// rings do not overwrite.
#[test]
fn rx_ring_fills_up() {
    let mut rings = UartRings::new();
    for k in 0..31u8 {
        assert!(UART_rxbuf_push(&mut rings, UART_ID::UART_ID_3, k));
    }
    assert!(!UART_rxbuf_push(&mut rings, UART_ID::UART_ID_3, 99));
    assert_eq!(UART_rs_rx_pop(&mut rings, UART_ID::UART_ID_3), Some(0));
    assert!(UART_rxbuf_push(&mut rings, UART_ID::UART_ID_3, 99));
}
