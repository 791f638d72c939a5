use rust_store::workload_generator::{RequestType, WorkloadParameters};

#[test]
fn test_workload_equality() {
    let params_a = WorkloadParameters::new(1000, 2000, 7, 0, 300000, 400000, [42; 32]).unwrap();
    let params_b = WorkloadParameters::new(1000, 2000, 7, 0, 300000, 400000, [42; 32]).unwrap();

    let mut gen_a = params_a.generator().unwrap();
    let mut gen_b = params_b.generator().unwrap();
    loop {
        let a = gen_a.next();
        let b = gen_b.next();
        assert_eq!(a, b);
        if a.is_none() {
            break;
        }
    }
}

#[test]
fn test_workload_inequality() {
    let params_a = WorkloadParameters::new(1000, 2000, 7, 0, 300000, 400000, [42; 32]).unwrap();
    let params_b = WorkloadParameters::new(1000, 2000, 7, 0, 300000, 400000, [41; 32]).unwrap();

    let mut gen_a = params_a.generator().unwrap();
    let mut gen_b = params_b.generator().unwrap();
    let mut stream_a = Vec::new();
    let mut stream_b = Vec::new();
    while let Some(r) = gen_a.next() {
        stream_a.push(r);
    }
    while let Some(r) = gen_b.next() {
        stream_b.push(r);
    }
    assert_ne!(stream_a, stream_b);
}

#[test]
fn test_workload_counts() {
    let params = WorkloadParameters::new(100, 100, 100, 0, 0, 0, [42; 32]).unwrap();
    let mut gen = params.generator().unwrap();
    let mut actual_gets = 0;
    let mut actual_puts = 0;
    let mut actual_deletes = 0;
    while let Some(op) = gen.next() {
        match op.request_type {
            RequestType::Get => actual_gets += 1,
            RequestType::Put => actual_puts += 1,
            RequestType::Delete => actual_deletes += 1,
        }
    }
    assert_eq!(actual_gets, 100);
    assert_eq!(actual_puts, 100);
    assert_eq!(actual_deletes, 100);
}

#[test]
fn no_get_or_delete_before_first_put() {
    let params = WorkloadParameters::new(50, 200, 50, 0, 500000, 200000, [7; 32]).unwrap();
    let mut gen = params.generator().unwrap();
    let mut puts_seen = 0;
    while let Some(op) = gen.next() {
        match op.request_type {
            RequestType::Put => {
                puts_seen += 1;
                assert!(op.value.is_some());
                assert_eq!(op.value.as_ref().unwrap().len(), 16);
            }
            RequestType::Get | RequestType::Delete => {
                assert!(puts_seen > 0, "a get or delete arrived before any put");
            }
        }
    }
    assert_eq!(puts_seen, 50);
}

#[test]
fn rejects_gets_without_puts() {
    let res = WorkloadParameters::new(0, 10, 0, 0, 0, 0, [42; 32]);
    assert!(res.is_err());
    let res = WorkloadParameters::new(0, 0, 3, 0, 0, 0, [42; 32]);
    assert!(res.is_err());
    let res = WorkloadParameters::new(0, 0, 0, 0, 0, 0, [42; 32]);
    assert!(res.is_ok());
}
