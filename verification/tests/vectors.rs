use cobs_rs::stuff;
use cobs_rs::unstuff;
use std::ops::Range;

struct TestVector {
    unencoded_data: Vec<u8>,
    encoded_data: Vec<u8>,
}

impl TestVector {
    fn new(unencoded_data: Vec<u8>, encoded_data: Vec<u8>) -> Self {
        Self { unencoded_data, encoded_data }
    }

    fn assert_stuff(&self) {
        assert_eq!(
            stuff(&self.unencoded_data, 0x00, self.encoded_data.len()),
            self.encoded_data
        );
    }

    fn assert_unstuff(&self) {
        assert_eq!(
            unstuff(&self.encoded_data, 0x00, self.unencoded_data.len()).unwrap(),
            (self.unencoded_data.clone(), self.encoded_data.len())
        );
    }

    fn assert_stuff_then_unstuff(&self) {
        let stuffed = stuff(&self.unencoded_data, 0x00, self.encoded_data.len());
        assert_eq!(
            unstuff(&stuffed, 0x00, self.unencoded_data.len()).unwrap(),
            (self.unencoded_data.clone(), self.encoded_data.len())
        );
    }

    fn assert_unstuff_then_stuff(&self) {
        let unstuffed = unstuff(&self.encoded_data, 0x00, self.unencoded_data.len())
            .unwrap()
            .0;
        assert_eq!(
            stuff(&unstuffed, 0x00, self.encoded_data.len()),
            self.encoded_data
        );
    }
}

fn get_range(mut initial: Vec<u8>, start_index: usize, range: Range<u8>) -> Vec<u8> {
    for (index, value) in range.enumerate() {
        initial[index + start_index] = value;
    }

    initial
}

fn tv_1() -> TestVector {
    TestVector::new(vec![0x00], vec![0x01, 0x01, 0x00])
}

fn tv_2() -> TestVector {
    TestVector::new(vec![0x00, 0x00], vec![0x01, 0x01, 0x01, 0x00])
}

fn tv_3() -> TestVector {
    TestVector::new(
        vec![0x11, 0x22, 0x00, 0x33],
        vec![0x03, 0x11, 0x22, 0x02, 0x33, 0x00],
    )
}

fn tv_4() -> TestVector {
    TestVector::new(
        vec![0x11, 0x22, 0x33, 0x44],
        vec![0x05, 0x11, 0x22, 0x33, 0x44, 0x00],
    )
}

fn tv_5() -> TestVector {
    TestVector::new(
        vec![0x11, 0x00, 0x00, 0x00],
        vec![0x02, 0x11, 0x01, 0x01, 0x01, 0x00],
    )
}

fn tv_6() -> TestVector {
    TestVector::new(
        get_range(vec![0; 254], 0, 0x01..0xff),
        get_range(
            {
                let mut arr = vec![0; 256];
                arr[0] = 0xff;
                arr
            },
            1,
            0x01..0xff,
        ),
    )
}

fn tv_7() -> TestVector {
    TestVector::new(
        get_range(vec![0; 255], 0, 0x00..0xff),
        get_range(
            {
                let mut arr = vec![0; 257];
                arr[0] = 0x01;
                arr[1] = 0xff;
                arr
            },
            2,
            0x01..0xff,
        ),
    )
}

fn tv_8() -> TestVector {
    TestVector::new(
        get_range(vec![0xff; 255], 0, 0x01..0xff),
        get_range(
            {
                let mut arr = vec![0; 258];
                arr[0] = 0xff;
                arr[255] = 0x02;
                arr[256] = 0xff;
                arr
            },
            1,
            0x01..0xff,
        ),
    )
}

fn tv_9() -> TestVector {
    TestVector::new(
        get_range(
            {
                let mut arr = vec![0xff; 255];
                arr[254] = 0;
                arr
            },
            0,
            0x02..0xff,
        ),
        get_range(
            {
                let mut arr = vec![0; 258];
                arr[0] = 0xff;
                arr[254] = 0xff;
                arr[255] = 0x01;
                arr[256] = 0x01;
                arr
            },
            1,
            0x02..0xff,
        ),
    )
}

fn tv_10() -> TestVector {
    TestVector::new(
        get_range(
            {
                let mut arr = vec![0xff; 255];
                arr[253] = 0x00;
                arr[254] = 0x01;
                arr
            },
            0,
            0x03..0xff,
        ),
        get_range(
            {
                let mut arr = vec![0; 257];
                arr[0] = 0xfe;
                arr[253] = 0xff;
                arr[254] = 0x02;
                arr[255] = 0x01;
                arr
            },
            1,
            0x03..0xff,
        ),
    )
}

#[test]
fn stuff_test_vectors() {
    tv_1().assert_stuff();
    tv_2().assert_stuff();
    tv_3().assert_stuff();
    tv_4().assert_stuff();
    tv_5().assert_stuff();
    tv_6().assert_stuff();
    tv_7().assert_stuff();
    tv_8().assert_stuff();
    tv_9().assert_stuff();
    tv_10().assert_stuff();
}

#[test]
fn unstuff_test_vectors() {
    tv_1().assert_unstuff();
    tv_2().assert_unstuff();
    tv_3().assert_unstuff();
    tv_4().assert_unstuff();
    tv_5().assert_unstuff();
    tv_6().assert_unstuff();
    tv_7().assert_unstuff();
    tv_8().assert_unstuff();
    tv_9().assert_unstuff();
    tv_10().assert_unstuff();
}

#[test]
fn inverses() {
    tv_1().assert_stuff_then_unstuff();
    tv_2().assert_stuff_then_unstuff();
    tv_3().assert_stuff_then_unstuff();
    tv_4().assert_stuff_then_unstuff();
    tv_5().assert_stuff_then_unstuff();
    tv_6().assert_stuff_then_unstuff();
    tv_7().assert_stuff_then_unstuff();
    tv_8().assert_stuff_then_unstuff();
    tv_9().assert_stuff_then_unstuff();
    tv_10().assert_stuff_then_unstuff();

    tv_1().assert_unstuff_then_stuff();
    tv_2().assert_unstuff_then_stuff();
    tv_3().assert_unstuff_then_stuff();
    tv_4().assert_unstuff_then_stuff();
    tv_5().assert_unstuff_then_stuff();
    tv_6().assert_unstuff_then_stuff();
    tv_7().assert_unstuff_then_stuff();
    tv_8().assert_unstuff_then_stuff();
    tv_9().assert_unstuff_then_stuff();
    tv_10().assert_unstuff_then_stuff();
}
