use rig_embeddings::requester::{
    align_embeddings, handle_reply, EmbeddingError, EmbeddingModel, EmbeddingRequest, Outcome,
    ProviderReply, MAX_DOCUMENTS,
};

fn docs(names: &[&str]) -> Vec<String> {
    names.iter().map(|s| s.to_string()).collect()
}

#[test]
fn matching_counts_preserve_order_and_documents() {
    let documents = docs(&["first doc", "second doc", "third doc"]);
    let vectors: Vec<Vec<f64>> = vec![vec![1.0, 2.0], vec![3.0, 4.0], vec![5.0, 6.0]];
    match handle_reply(&documents, ProviderReply::Payload { vectors: vectors.clone() }) {
        Outcome::Success { embeddings } => {
            assert_eq!(embeddings.len(), 3);
            for (k, e) in embeddings.iter().enumerate() {
                assert_eq!(e.document, documents[k]);
                assert_eq!(e.vec, vectors[k]);
            }
        }
        _ => panic!("expected success"),
    }
}

#[test]
fn count_mismatch_is_a_shape_failure() {
    let documents = docs(&["a", "b"]);
    let vectors: Vec<Vec<f64>> = vec![vec![1.0], vec![2.0], vec![3.0]];
    match handle_reply(&documents, ProviderReply::Payload { vectors }) {
        Outcome::Failure { error } => {
            assert_eq!(error, EmbeddingError::ResponseShape { expected: 2, actual: 3 });
        }
        _ => panic!("expected failure"),
    }
}

#[test]
fn align_refuses_mismatch_directly() {
    let documents = docs(&["a"]);
    let vectors: Vec<Vec<f64>> = vec![];
    match align_embeddings(&documents, vectors) {
        Err(EmbeddingError::ResponseShape { expected, actual }) => {
            assert_eq!((expected, actual), (1, 0));
        }
        _ => panic!("expected a shape error"),
    }
}

#[test]
fn error_envelope_is_a_provider_failure() {
    let documents = docs(&["a"]);
    let reply: ProviderReply<Vec<f64>> =
        ProviderReply::Refusal { message: "model overloaded".to_string() };
    match handle_reply(&documents, reply) {
        Outcome::Failure { error } => {
            assert_eq!(
                error,
                EmbeddingError::Provider { status: 200, message: "model overloaded".to_string() }
            );
        }
        _ => panic!("expected failure"),
    }
}

#[test]
fn rate_limit_with_request_header_waits_the_parsed_duration() {
    let documents = docs(&["a"]);
    let reply: ProviderReply<Vec<f64>> = ProviderReply::RateLimited {
        reset_requests: Some(b"6m10s".to_vec()),
        reset_tokens: Some(b"1s".to_vec()),
        body: String::new(),
    };
    match handle_reply(&documents, reply) {
        Outcome::Retry { wait } => assert_eq!(wait.as_nanos(), 370_000_000_000),
        _ => panic!("expected retry"),
    }
}

#[test]
fn unparseable_request_header_falls_back_to_token_header() {
    let documents = docs(&["a"]);
    let reply: ProviderReply<Vec<f64>> = ProviderReply::RateLimited {
        reset_requests: Some(b"garbage".to_vec()),
        reset_tokens: Some(b"500ms".to_vec()),
        body: String::new(),
    };
    match handle_reply(&documents, reply) {
        Outcome::Retry { wait } => assert_eq!(wait.as_nanos(), 500_000_000),
        _ => panic!("expected retry"),
    }
}

#[test]
fn absent_request_header_falls_back_to_token_header() {
    let documents = docs(&["a"]);
    let reply: ProviderReply<Vec<f64>> = ProviderReply::RateLimited {
        reset_requests: None,
        reset_tokens: Some(b"2h".to_vec()),
        body: String::new(),
    };
    match handle_reply(&documents, reply) {
        Outcome::Retry { wait } => assert_eq!(wait.as_nanos(), 7_200_000_000_000),
        _ => panic!("expected retry"),
    }
}

#[test]
fn rate_limit_without_usable_header_fails_without_retry() {
    let documents = docs(&["a"]);
    let reply: ProviderReply<Vec<f64>> = ProviderReply::RateLimited {
        reset_requests: Some(b"soon".to_vec()),
        reset_tokens: None,
        body: "quota exceeded".to_string(),
    };
    match handle_reply(&documents, reply) {
        Outcome::Failure { error } => {
            assert_eq!(
                error,
                EmbeddingError::RateLimitExhausted { body: "quota exceeded".to_string() }
            );
        }
        _ => panic!("expected failure"),
    }
}

#[test]
fn server_error_carries_status_and_body() {
    let documents = docs(&["a"]);
    let reply: ProviderReply<Vec<f64>> =
        ProviderReply::Other { status: 500, body: "internal error".to_string() };
    match handle_reply(&documents, reply) {
        Outcome::Failure { error } => {
            assert_eq!(
                error,
                EmbeddingError::Provider { status: 500, message: "internal error".to_string() }
            );
        }
        _ => panic!("expected failure"),
    }
}

#[test]
fn transport_failure_ends_the_operation() {
    let documents = docs(&["a"]);
    let reply: ProviderReply<Vec<f64>> =
        ProviderReply::TransportFailure { message: "connection reset".to_string() };
    match handle_reply(&documents, reply) {
        Outcome::Failure { error } => {
            assert_eq!(
                error,
                EmbeddingError::Transport { message: "connection reset".to_string() }
            );
        }
        _ => panic!("expected failure"),
    }
}

#[test]
fn repeated_rate_limits_then_success() {
    let documents = docs(&["doc"]);
    let mut attempts = 0;
    let hints: [&[u8]; 3] = [b"3s", b"2s", b"1s"];
    loop {
        let reply: ProviderReply<Vec<f64>> = if attempts < hints.len() {
            ProviderReply::RateLimited {
                reset_requests: Some(hints[attempts].to_vec()),
                reset_tokens: None,
                body: String::new(),
            }
        } else {
            ProviderReply::Payload { vectors: vec![vec![0.25]] }
        };
        match handle_reply(&documents, reply) {
            Outcome::Retry { wait } => {
                assert!(wait.as_nanos() > 0);
                attempts += 1;
            }
            Outcome::Success { embeddings } => {
                assert_eq!(attempts, 3);
                assert_eq!(embeddings.len(), 1);
                assert_eq!(embeddings[0].document, "doc");
                break;
            }
            Outcome::Failure { .. } => panic!("unexpected failure"),
        }
    }
}

#[test]
fn model_keeps_its_configuration() {
    let model = EmbeddingModel::new("text-embedding-3-small", 1536);
    assert_eq!(model.model, "text-embedding-3-small");
    assert_eq!(model.ndims(), 1536);
    let copy = model.clone();
    assert_eq!(copy.model, "text-embedding-3-small");
}

#[test]
fn request_holds_model_and_documents() {
    let request = EmbeddingRequest::new("text-embedding-ada-002", docs(&["x", "y"]));
    assert_eq!(request.model, "text-embedding-ada-002");
    assert_eq!(request.documents, docs(&["x", "y"]));
}

#[test]
fn batch_limit_is_fixed() {
    assert_eq!(MAX_DOCUMENTS, 1024);
}
