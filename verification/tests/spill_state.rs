use grafeo::execution::spill_state::{
    MemoryRegion, OperatorConsumerAdapter, OperatorSpillState, Priorities,
};

#[test]
fn test_spill_state_usage_tracking() {
    let mut state = OperatorSpillState::new("test_sort".to_string());
    assert_eq!(state.usage(), 0);

    state.set_usage(1024);
    assert_eq!(state.usage(), 1024);

    state.set_usage(0);
    assert_eq!(state.usage(), 0);
}

#[test]
fn test_spill_state_eviction_request() {
    let mut state = OperatorSpillState::new("test_agg".to_string());

    // No request initially
    assert!(state.take_eviction_request().is_none());

    // Request eviction
    state.request_eviction(4096);
    assert_eq!(state.take_eviction_request(), Some(4096));

    // Flag is cleared after take
    assert!(state.take_eviction_request().is_none());
}

#[test]
fn test_spill_state_multiple_requests_last_wins() {
    let mut state = OperatorSpillState::new("test".to_string());

    state.request_eviction(1000);
    state.request_eviction(2000);

    // Last target wins (but flag is set either way)
    let target = state.take_eviction_request();
    assert!(target.is_some());
    assert_eq!(target.unwrap(), 2000);
}

#[test]
fn test_consumer_adapter_reports_correct_metadata() {
    let mut state = OperatorSpillState::new("sort_op_1".to_string());
    state.set_usage(8192);
    let priorities = Priorities { execution_buffers: 40 };

    let adapter = OperatorConsumerAdapter::new(state);

    assert_eq!(adapter.name(), "sort_op_1");
    assert_eq!(adapter.memory_usage(), 8192);
    assert_eq!(adapter.eviction_priority(&priorities), priorities.execution_buffers);
    assert_eq!(adapter.region(), MemoryRegion::ExecutionBuffers);
    assert!(adapter.can_spill());
}

#[test]
fn test_consumer_adapter_evict_sets_flag() {
    let state = OperatorSpillState::new("agg_op".to_string());
    let mut adapter = OperatorConsumerAdapter::new(state);

    // evict() returns 0 (deferred) but sets the flag
    let freed = adapter.evict(4096);
    assert_eq!(freed, 0);
    assert_eq!(adapter.state_mut().take_eviction_request(), Some(4096));
}

#[test]
fn test_consumer_adapter_spill_sets_flag() {
    let state = OperatorSpillState::new("sort_op".to_string());
    let mut adapter = OperatorConsumerAdapter::new(state);

    let result = adapter.spill(2048);
    assert!(result.is_ok());
    assert_eq!(result.unwrap(), 0);
    assert_eq!(adapter.state_mut().take_eviction_request(), Some(2048));
}
