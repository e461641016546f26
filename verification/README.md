# KDynaRoll

A Kubernetes controller that puts labels on the pods of applications, so that each value of a
label is carried by its percentage of the pods. The configuration is a `Kdynaroll` resource of the
name `kdynaroll-controller-config`.

The decisions are a library, written and proved in Verus; the process around it talks to the API
server and serves the metrics.

## Layout

- `src/` is the library.
  - `config`, `pod`, `labels`: the configuration, pods, and numbers of pods per label value.
  - `binary64`, `shares`, `precision`: percentages, which are double-precision numbers, in integer
    arithmetic, and how exact they are.
  - `quota`, `distribution`: from percentages to numbers of pods.
  - `resolve`, `convergence`, `economy`: which pod gets which value, and what that brings about.
  - `labeler`, `patch`, `text`: one label of one application, request by request.
  - `controller`, `scan`: a reconciliation, and the scan of a namespace.
  - `cycle`: what a reconciliation comes to for a label.
  - `metrics`: what is counted.
- `app/` is the process.
- `tests/` runs the library.

## Environment

- `KDYNAROLL_POD_NAMESPACE`: the namespace of the configuration, `default` if it is not set.
- `KDYNAROLL_METRICS_BIND_ADDR`: the address of the metrics server, `0.0.0.0:5085` if it is not set.
