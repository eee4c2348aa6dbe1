//! Notes on backpropagation through the model.
use vstd::prelude::*;

verus! {

/// The notes on attention backpropagation, as one text.
pub open spec fn attention_backward_text() -> Seq<char> {
    "\nSelf-Attention 역전파 개요:\n\n1. 출력에서 V로의 기울기:\n   ∂L/∂V = Attention_weights^T · ∂L/∂output\n\n2. Attention weights에서 QK로의 기울기:\n   ∂L/∂(QK^T) = softmax의 jacobian × ∂L/∂attention_weights\n\n3. Q, K로의 기울기:\n   ∂L/∂Q = ∂L/∂(QK^T) · K / √d\n   ∂L/∂K = Q^T · ∂L/∂(QK^T) / √d\n\n4. 투영 행렬로의 기울기:\n   ∂L/∂Wq = X^T · ∂L/∂Q\n   ∂L/∂Wk = X^T · ∂L/∂K\n   ∂L/∂Wv = X^T · ∂L/∂V\n"@
}

/// An outline of backpropagation through self-attention:
/// `Attention(Q, K, V) = softmax(Q K^T / sqrt(d)) V`.
pub fn attention_backward_notes() -> (r: &'static str)
    ensures
        r@ == attention_backward_text(),
{
    "\nSelf-Attention 역전파 개요:\n\n1. 출력에서 V로의 기울기:\n   ∂L/∂V = Attention_weights^T · ∂L/∂output\n\n2. Attention weights에서 QK로의 기울기:\n   ∂L/∂(QK^T) = softmax의 jacobian × ∂L/∂attention_weights\n\n3. Q, K로의 기울기:\n   ∂L/∂Q = ∂L/∂(QK^T) · K / √d\n   ∂L/∂K = Q^T · ∂L/∂(QK^T) / √d\n\n4. 투영 행렬로의 기울기:\n   ∂L/∂Wq = X^T · ∂L/∂Q\n   ∂L/∂Wk = X^T · ∂L/∂K\n   ∂L/∂Wv = X^T · ∂L/∂V\n"
}

} // verus!
