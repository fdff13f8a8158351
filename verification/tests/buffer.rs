use ring_buffer::RingBuffer;
use ring_buffer::RING_BUFFER_SZ;

#[test]
fn test_buf_empty() {
    let buf = RingBuffer::new();
    assert_eq!(buf.len(), 0)
}

#[test]
fn test_buf_full() {
    let mut buf = RingBuffer::new();
    let val = [0xAAu8; RING_BUFFER_SZ];
    let mut val2 = vec![0xBBu8; RING_BUFFER_SZ];

    assert!(buf.enqueue_slice(&val) == true);
    assert_eq!(buf.tail, 0);
    assert_eq!(buf.len(), RING_BUFFER_SZ);

    assert!(buf.dequeue_slice(&mut val2) == RING_BUFFER_SZ);
    assert_eq!(buf.len(), 0);

    assert_eq!(&val[..], &val2[..]);
}

#[test]
fn test_buf_squeze() {
    let mut buf = RingBuffer::new();
    let val = [0xAAu8; RING_BUFFER_SZ / 2];
    let val2 = [0xBBu8; RING_BUFFER_SZ];
    let mut val3 = vec![0x0u8; RING_BUFFER_SZ];
    let val4 = [0xBBu8; RING_BUFFER_SZ];

    assert!(buf.enqueue_slice(&val) == true);
    assert_eq!(buf.len(), RING_BUFFER_SZ / 2);

    assert!(buf.enqueue_slice(&val2) == true);
    assert_eq!(buf.len(), RING_BUFFER_SZ);

    assert!(buf.dequeue_slice(&mut val3) == RING_BUFFER_SZ);
    assert_eq!(buf.len(), 0);

    assert_eq!(&val3[..], &val4[..]);
}

#[test]
fn test_buf_squeze2() {
    let mut buf = RingBuffer::new();
    let val = {
        let mut val = [0x00u8; RING_BUFFER_SZ];
        for i in 0..RING_BUFFER_SZ / 4 {
            val[i * 4] = (i >> 0) as u8;
            val[i * 4 + 1] = (i >> 8) as u8;
            val[i * 4 + 2] = (i >> 16) as u8;
            val[i * 4 + 3] = (i >> 24) as u8;
        }
        val
    };
    println!("{:?}", &val[..]);

    let val2 = {
        let mut val = [0x00u8; RING_BUFFER_SZ / 2];
        for i in RING_BUFFER_SZ / 4..RING_BUFFER_SZ / 4 + RING_BUFFER_SZ / 4 / 2 {
            let j = i - RING_BUFFER_SZ / 4;
            val[j * 4] = (i >> 0) as u8;
            val[j * 4 + 1] = (i >> 8) as u8;
            val[j * 4 + 2] = (i >> 16) as u8;
            val[j * 4 + 3] = (i >> 24) as u8;
        }
        val
    };
    println!("{:?}", &val2[..]);

    let mut val3 = vec![0x0u8; RING_BUFFER_SZ];

    assert!(buf.enqueue_slice(&val) == true);
    assert_eq!(buf.len(), RING_BUFFER_SZ);

    assert!(buf.enqueue_slice(&val2) == true);
    assert_eq!(buf.len(), RING_BUFFER_SZ);

    assert!(buf.dequeue_slice(&mut val3) == RING_BUFFER_SZ);
    assert_eq!(buf.len(), 0);
    println!("{:?}", &val3[..]);

    let mut cnt_buf = vec![0xAAu8; 4];
    buf.dequeue_slice(&mut cnt_buf);
    let mut cnt: u32 = {
        let mut cnt: u32 = 0;
        cnt |= (cnt_buf[0] << 0) as u32;
        cnt |= (cnt_buf[1] << 1) as u32;
        cnt |= (cnt_buf[2] << 2) as u32;
        cnt |= (cnt_buf[3] << 3) as u32;
        cnt
    };

    for _i in 4..(RING_BUFFER_SZ - 1) / 4 {
        let mut cnt_buf = vec![0xAAu8; 4];
        for k in 0..4 {
            let mut one = vec![0xAAu8; 1];
            buf.dequeue_slice(&mut one);
            cnt_buf[k] = one[0];
        }

        let cnt_new = {
            let mut cnt: u32 = 0;
            cnt |= (cnt_buf[0] << 0) as u32;
            cnt |= (cnt_buf[1] << 1) as u32;
            cnt |= (cnt_buf[2] << 2) as u32;
            cnt |= (cnt_buf[3] << 3) as u32;
            cnt
        };

        if cnt_new != cnt + 1 {
            panic!();
        }
        cnt = cnt_new;
    }
}
