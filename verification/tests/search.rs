use succinct::internal::search::{average, binary_search_function};

#[test]
fn avg_2_4() {
    assert_eq!(3, average(2, 4));
}

#[test]
fn avg_2_5() {
    assert_eq!(3, average(2, 5));
}

#[test]
fn avg_3_4() {
    assert_eq!(3, average(3, 4));
}

#[test]
fn avg_3_5() {
    assert_eq!(4, average(3, 5));
}

#[test]
fn avg_big() {
    let big: u64 = !0;
    assert_eq!(big - 1, average(big, big - 1));
    assert_eq!(big - 1, average(big, big - 2));
    assert_eq!(big - 1, average(big - 1, big - 1));
    assert_eq!(big - 2, average(big - 2, big - 1));
    assert_eq!(big - 2, average(big - 2, big - 2));
    assert_eq!(big - 2, average(big - 1, big - 3));
}

fn search_slice(value: usize, slice: &[usize]) -> Option<usize> {
    binary_search_function(0, slice.len() as u64, value as u64, |index| {
        slice[index as usize] as u64
    })
    .map(|d| d as usize)
}

const MAX_LEN: usize = 32;

#[test]
fn binary_search_01() {
    let mut vec = Vec::<usize>::with_capacity(MAX_LEN);

    for len in 0..MAX_LEN + 1 {
        for result in 0..len {
            vec.clear();
            for _ in 0..result {
                vec.push(0);
            }
            for _ in result..len {
                vec.push(1);
            }
            assert_eq!(Some(result), search_slice(1, &vec));
        }

        vec.clear();
        for _ in 0..len {
            vec.push(0)
        }
        assert_eq!(None, search_slice(1, &vec));
    }
}

#[test]
fn binary_search_02() {
    let mut vec = Vec::<usize>::with_capacity(MAX_LEN);

    for len in 0..MAX_LEN + 1 {
        for result in 0..len {
            vec.clear();
            for _ in 0..result {
                vec.push(0);
            }
            for _ in result..len {
                vec.push(2);
            }
            assert_eq!(Some(result), search_slice(1, &vec));
        }

        vec.clear();
        for _ in 0..len {
            vec.push(0)
        }
        assert_eq!(None, search_slice(1, &vec));
    }
}

#[test]
fn binary_search_iota() {
    let mut vec = Vec::<usize>::with_capacity(MAX_LEN);

    for len in 0..MAX_LEN + 1 {
        vec.clear();
        for i in 0..len {
            vec.push(i);
        }

        for i in 0..len {
            assert_eq!(Some(i), search_slice(i, &vec));
        }

        assert_eq!(None, search_slice(len, &vec));
    }
}

#[test]
fn binary_search_from_nonzero_start() {
    let squares = |d: u64| d * d;
    assert_eq!(Some(5), binary_search_function(3, 10, 20, squares));
    assert_eq!(Some(3), binary_search_function(3, 10, 4, squares));
    assert_eq!(None, binary_search_function(3, 10, 100, squares));
    assert_eq!(None, binary_search_function(5, 5, 0, squares));
}
